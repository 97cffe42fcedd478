use vstd::prelude::*;
use vstd::string::StrSliceExecFns;
use vstd::string::StringExecFns;

use crate::value::{distinct_keys, table_has_key, Field, FieldModel, Table, Value, ValueModel};

verus! {

// ---------------------------------------------------------------------------
// Character classes of the document format.
// ---------------------------------------------------------------------------
/// Horizontal whitespace: spaces, tabs and carriage returns may surround the
/// parts of a line.
pub open spec fn is_ws_char(c: char) -> bool {
    c == ' ' || c == '\t' || c == '\r'
}

/// A character a bare key may consist of: ASCII letters, digits, `_` and `-`.
pub open spec fn is_key_char(c: char) -> bool {
    ('a' <= c && c <= 'z') || ('A' <= c && c <= 'Z') || ('0' <= c && c <= '9') || c == '_' || c
        == '-'
}

// ---------------------------------------------------------------------------
// Scanners over a line, with their characterizations.
// ---------------------------------------------------------------------------
/// The first position at or after `i` holding a non-whitespace character, or
/// the end of `l`.
pub open spec fn skip_ws(l: Seq<char>, i: int) -> int
    decreases l.len() - i,
    when 0 <= i <= l.len()
{
    if i < l.len() && is_ws_char(l[i]) {
        skip_ws(l, i + 1)
    } else {
        i
    }
}

/// `skip_ws` lands on the first non-whitespace position.
pub proof fn lemma_skip_ws(l: Seq<char>, i: int)
    requires
        0 <= i <= l.len(),
    ensures
        i <= skip_ws(l, i) <= l.len(),
        forall|m: int| i <= m < skip_ws(l, i) ==> is_ws_char(l[m]),
        skip_ws(l, i) < l.len() ==> !is_ws_char(l[skip_ws(l, i)]),
    decreases l.len() - i,
{
    if i < l.len() && is_ws_char(l[i]) {
        lemma_skip_ws(l, i + 1);
    }
}

/// Whitespace-only ranges are skipped whole: if everything from `i` up to `j`
/// is whitespace and `j` is not (or is the end), `skip_ws` lands on `j`.
pub proof fn lemma_skip_ws_is(l: Seq<char>, i: int, j: int)
    requires
        0 <= i <= j <= l.len(),
        forall|m: int| i <= m < j ==> is_ws_char(l[m]),
        j < l.len() ==> !is_ws_char(l[j]),
    ensures
        skip_ws(l, i) == j,
    decreases j - i,
{
    if i < j {
        lemma_skip_ws_is(l, i + 1, j);
    }
}

/// The first position at or after `i` holding a non-key character, or the
/// end of `l`.
pub open spec fn scan_key(l: Seq<char>, i: int) -> int
    decreases l.len() - i,
    when 0 <= i <= l.len()
{
    if i < l.len() && is_key_char(l[i]) {
        scan_key(l, i + 1)
    } else {
        i
    }
}

/// `scan_key` lands on the first non-key position.
pub proof fn lemma_scan_key(l: Seq<char>, i: int)
    requires
        0 <= i <= l.len(),
    ensures
        i <= scan_key(l, i) <= l.len(),
        forall|m: int| i <= m < scan_key(l, i) ==> is_key_char(l[m]),
        scan_key(l, i) < l.len() ==> !is_key_char(l[scan_key(l, i)]),
    decreases l.len() - i,
{
    if i < l.len() && is_key_char(l[i]) {
        lemma_scan_key(l, i + 1);
    }
}

/// Key-only ranges are scanned whole: if everything from `i` up to `j` is a
/// key character and `j` is not (or is the end), `scan_key` lands on `j`.
pub proof fn lemma_scan_key_is(l: Seq<char>, i: int, j: int)
    requires
        0 <= i <= j <= l.len(),
        forall|m: int| i <= m < j ==> is_key_char(l[m]),
        j < l.len() ==> !is_key_char(l[j]),
    ensures
        scan_key(l, i) == j,
    decreases j - i,
{
    if i < j {
        lemma_scan_key_is(l, i + 1, j);
    }
}

/// The first position at or after `i` holding the character `c`, if any.
pub open spec fn find_char(l: Seq<char>, i: int, c: char) -> Option<int>
    decreases l.len() - i,
    when 0 <= i <= l.len()
{
    if i >= l.len() {
        None
    } else if l[i] == c {
        Some(i)
    } else {
        find_char(l, i + 1, c)
    }
}

/// `find_char` finds exactly the first occurrence at or after `i`.
pub proof fn lemma_find_char(l: Seq<char>, i: int, c: char)
    requires
        0 <= i <= l.len(),
    ensures
        match find_char(l, i, c) {
            Some(j) => i <= j < l.len() && l[j] == c && (forall|m: int|
                i <= m < j ==> l[m] != c),
            None => forall|m: int| i <= m < l.len() ==> l[m] != c,
        },
    decreases l.len() - i,
{
    if i < l.len() && l[i] != c {
        lemma_find_char(l, i + 1, c);
    }
}

/// A range free of `c` is passed over whole: if `c` first appears at `j`,
/// `find_char` answers `j`, and if it never appears, `find_char` answers
/// nothing.
pub proof fn lemma_find_char_is(l: Seq<char>, i: int, j: int, c: char)
    requires
        0 <= i <= j <= l.len(),
        forall|m: int| i <= m < j ==> l[m] != c,
        j < l.len() ==> l[j] == c,
    ensures
        j < l.len() ==> find_char(l, i, c) == Some(j),
        j == l.len() ==> find_char(l, i, c) is None,
    decreases j - i,
{
    if i < j {
        lemma_find_char_is(l, i + 1, j, c);
    }
}

// ---------------------------------------------------------------------------
// The grammar of a document, over models.
// ---------------------------------------------------------------------------
/// The error text for a line that starts with something other than a key.
pub open spec fn expected_key_message() -> Seq<char> {
    "expected a key"@
}

/// The error text for a key not followed by `=`.
pub open spec fn expected_equals_message() -> Seq<char> {
    "expected `=` after key"@
}

/// The error text for an opening quote without a closing one on its line.
pub open spec fn unterminated_string_message() -> Seq<char> {
    "unterminated string"@
}

/// The error text for a right-hand side that is not a string or a boolean.
pub open spec fn expected_value_message() -> Seq<char> {
    "expected a value"@
}

/// The error text for trailing characters after a value.
pub open spec fn trailing_characters_message() -> Seq<char> {
    "unexpected characters after value"@
}

/// The error text for a key that appears on two lines.
pub open spec fn duplicate_key_message() -> Seq<char> {
    "duplicate key"@
}

/// Whether the four characters of `true` stand at `i`.
pub open spec fn matches_true(l: Seq<char>, i: int) -> bool {
    i + 4 <= l.len() && l[i] == 't' && l[i + 1] == 'r' && l[i + 2] == 'u' && l[i + 3] == 'e'
}

/// Whether the five characters of `false` stand at `i`.
pub open spec fn matches_false(l: Seq<char>, i: int) -> bool {
    i + 5 <= l.len() && l[i] == 'f' && l[i + 1] == 'a' && l[i + 2] == 'l' && l[i + 3] == 's' && l[i
        + 4] == 'e'
}

/// Parse the value standing at `i`: a quoted string (any characters but the
/// quote), `true`, or `false`.  On success, the value and the position just
/// after it.
pub open spec fn parse_value_at(l: Seq<char>, i: int) -> Result<(ValueModel, int), Seq<char>>
    recommends
        0 <= i <= l.len(),
{
    if i < l.len() && l[i] == '"' {
        match find_char(l, i + 1, '"') {
            Some(j) => Ok((ValueModel::Str(l.subrange(i + 1, j)), j + 1)),
            None => Err(unterminated_string_message()),
        }
    } else if matches_true(l, i) {
        Ok((ValueModel::Bool(true), i + 4))
    } else if matches_false(l, i) {
        Ok((ValueModel::Bool(false), i + 5))
    } else {
        Err(expected_value_message())
    }
}

/// Parse one line: optional whitespace, then nothing at all, or one
/// `key = value` binding.
pub open spec fn parse_line_spec(l: Seq<char>) -> Result<Option<FieldModel>, Seq<char>> {
    let i0 = skip_ws(l, 0);
    if i0 == l.len() {
        Ok(None)
    } else {
        let k = scan_key(l, i0);
        if k == i0 {
            Err(expected_key_message())
        } else {
            let i1 = skip_ws(l, k);
            if !(i1 < l.len() && l[i1] == '=') {
                Err(expected_equals_message())
            } else {
                let i2 = skip_ws(l, i1 + 1);
                match parse_value_at(l, i2) {
                    Err(e) => Err(e),
                    Ok((v, i3)) => {
                        let i4 = skip_ws(l, i3);
                        if i4 == l.len() {
                            Ok(Some(FieldModel { key: l.subrange(i0, k), value: v }))
                        } else {
                            Err(trailing_characters_message())
                        }
                    },
                }
            }
        }
    }
}

/// Split a document into its lines; the separating newlines are dropped.
pub open spec fn split_lines(s: Seq<char>) -> Seq<Seq<char>>
    decreases s.len(),
{
    match find_char(s, 0, '\n') {
        None => seq![s],
        Some(j) => {
            proof {
                lemma_find_char(s, 0, '\n');
            }
            seq![s.subrange(0, j)] + split_lines(s.subrange(j + 1, s.len() as int))
        },
    }
}

/// Parse lines in order, collecting bindings into `acc`; a line error stops
/// everything, and a key bound twice is rejected.
pub open spec fn parse_lines_spec(lines: Seq<Seq<char>>, acc: Seq<FieldModel>) -> Result<
    Seq<FieldModel>,
    Seq<char>,
>
    decreases lines.len(),
{
    if lines.len() == 0 {
        Ok(acc)
    } else {
        match parse_line_spec(lines[0]) {
            Err(e) => Err(e),
            Ok(None) => parse_lines_spec(lines.drop_first(), acc),
            Ok(Some(f)) => if table_has_key(acc, f.key) {
                Err(duplicate_key_message())
            } else {
                parse_lines_spec(lines.drop_first(), acc.push(f))
            },
        }
    }
}

/// What parsing a whole document returns, at the level of models.
pub open spec fn parse_doc_spec(s: Seq<char>) -> Result<Seq<FieldModel>, Seq<char>> {
    parse_lines_spec(split_lines(s), Seq::<FieldModel>::empty())
}

// ---------------------------------------------------------------------------
// The executable parser.
// ---------------------------------------------------------------------------
fn is_ws_char_exec(c: char) -> (b: bool)
    ensures
        b == is_ws_char(c),
{
    c == ' ' || c == '\t' || c == '\r'
}

fn is_key_char_exec(c: char) -> (b: bool)
    ensures
        b == is_key_char(c),
{
    ('a' <= c && c <= 'z') || ('A' <= c && c <= 'Z') || ('0' <= c && c <= '9') || c == '_' || c
        == '-'
}

fn skip_ws_str(l: &str, i: usize) -> (j: usize)
    requires
        i <= l@.len(),
    ensures
        j == skip_ws(l@, i as int),
        i <= j <= l@.len(),
{
    let n = l.unicode_len();
    let mut j = i;
    loop
        invariant
            n == l@.len(),
            i <= j <= n,
            skip_ws(l@, i as int) == skip_ws(l@, j as int),
        ensures
            i <= j <= n,
            skip_ws(l@, i as int) == j,
        decreases n - j,
    {
        if j < n {
            let c = l.get_char(j);
            if is_ws_char_exec(c) {
                j = j + 1;
            } else {
                break ;
            }
        } else {
            break ;
        }
    }
    j
}

fn scan_key_str(l: &str, i: usize) -> (j: usize)
    requires
        i <= l@.len(),
    ensures
        j == scan_key(l@, i as int),
        i <= j <= l@.len(),
{
    let n = l.unicode_len();
    let mut j = i;
    loop
        invariant
            n == l@.len(),
            i <= j <= n,
            scan_key(l@, i as int) == scan_key(l@, j as int),
        ensures
            i <= j <= n,
            scan_key(l@, i as int) == j,
        decreases n - j,
    {
        if j < n {
            let c = l.get_char(j);
            if is_key_char_exec(c) {
                j = j + 1;
            } else {
                break ;
            }
        } else {
            break ;
        }
    }
    j
}

fn find_char_str(l: &str, i: usize, c: char) -> (r: Option<usize>)
    requires
        i <= l@.len(),
    ensures
        (match r {
            Some(j) => find_char(l@, i as int, c) == Some(j as int) && i <= j < l@.len(),
            None => find_char(l@, i as int, c) is None,
        }),
{
    let n = l.unicode_len();
    let mut j = i;
    let mut found = false;
    loop
        invariant
            n == l@.len(),
            i <= j <= n,
            find_char(l@, i as int, c) == find_char(l@, j as int, c),
            found ==> j < n && l@[j as int] == c,
        ensures
            i <= j <= n,
            found ==> j < n && find_char(l@, i as int, c) == Some(j as int),
            !found ==> find_char(l@, i as int, c) is None,
        decreases n - j + (if found {
            0int
        } else {
            1int
        }),
    {
        if found {
            break ;
        }
        if j < n {
            let d = l.get_char(j);
            if d == c {
                found = true;
            } else {
                j = j + 1;
            }
        } else {
            break ;
        }
    }
    if found {
        Some(j)
    } else {
        None
    }
}

fn parse_value_str(l: &str, i: usize) -> (r: Result<(Value, usize), String>)
    requires
        i <= l@.len(),
    ensures
        (match r {
            Ok(p) => parse_value_at(l@, i as int) == Ok::<(ValueModel, int), Seq<char>>(
                (p.0.deep_view(), p.1 as int),
            ) && i <= p.1 <= l@.len(),
            Err(e) => parse_value_at(l@, i as int) is Err && e@ == parse_value_at(
                l@,
                i as int,
            )->Err_0,
        }),
{
    let n = l.unicode_len();
    if i < n && l.get_char(i) == '"' {
        match find_char_str(l, i + 1, '"') {
            Some(j) => {
                let content = l.substring_char(i + 1, j).to_owned();
                Ok((Value::Str(content), j + 1))
            },
            None => Err("unterminated string".to_owned()),
        }
    } else {
        let rem = n - i;
        let is_true = rem >= 4 && l.get_char(i) == 't' && l.get_char(i + 1) == 'r' && l.get_char(
            i + 2,
        ) == 'u' && l.get_char(i + 3) == 'e';
        if is_true {
            Ok((Value::Bool(true), i + 4))
        } else {
            let is_false = rem >= 5 && l.get_char(i) == 'f' && l.get_char(i + 1) == 'a'
                && l.get_char(i + 2) == 'l' && l.get_char(i + 3) == 's' && l.get_char(i + 4)
                == 'e';
            if is_false {
                Ok((Value::Bool(false), i + 5))
            } else {
                Err("expected a value".to_owned())
            }
        }
    }
}

fn parse_line_str(l: &str) -> (r: Result<Option<Field>, String>)
    ensures
        (match r {
            Ok(of) => (match of {
                Some(f) => parse_line_spec(l@) == Ok::<Option<FieldModel>, Seq<char>>(
                    Some(f.deep_view()),
                ),
                None => parse_line_spec(l@) == Ok::<Option<FieldModel>, Seq<char>>(None),
            }),
            Err(e) => parse_line_spec(l@) is Err && e@ == parse_line_spec(l@)->Err_0,
        }),
{
    let n = l.unicode_len();
    let i0 = skip_ws_str(l, 0);
    if i0 == n {
        return Ok(None);
    }
    let k = scan_key_str(l, i0);
    if k == i0 {
        return Err("expected a key".to_owned());
    }
    let i1 = skip_ws_str(l, k);
    if !(i1 < n && l.get_char(i1) == '=') {
        return Err("expected `=` after key".to_owned());
    }
    let i2 = skip_ws_str(l, i1 + 1);
    match parse_value_str(l, i2) {
        Err(e) => Err(e),
        Ok(p) => {
            let i4 = skip_ws_str(l, p.1);
            if i4 == n {
                let key = l.substring_char(i0, k).to_owned();
                Ok(Some(Field { key, value: p.0 }))
            } else {
                Err("unexpected characters after value".to_owned())
            }
        },
    }
}

/// Whether some field of `t` already binds the key `k`.
fn table_contains_key(t: &Vec<Field>, k: &String) -> (b: bool)
    ensures
        b == table_has_key(t.deep_view(), k@),
{
    let mut i: usize = 0;
    while i < t.len()
        invariant
            0 <= i <= t.len(),
            forall|m: int| 0 <= m < i ==> t.deep_view()[m].key != k@,
        decreases t.len() - i,
    {
        if t[i].key == *k {
            proof {
                assert(t.deep_view()[i as int].key == k@);
            }
            return true;
        }
        i = i + 1;
    }
    false
}

/// Parse a whole configuration document: one `key = value` binding per
/// line, blank lines permitted, every key bound at most once.
pub fn parse_document(s: &str) -> (r: Result<Table, String>)
    ensures
        (match r {
            Ok(t) => parse_doc_spec(s@) == Ok::<Seq<FieldModel>, Seq<char>>(t.deep_view()),
            Err(e) => parse_doc_spec(s@) is Err && e@ == parse_doc_spec(s@)->Err_0,
        }),
{
    let n = s.unicode_len();
    let mut acc: Vec<Field> = Vec::new();
    let mut pos: usize = 0;
    let mut finished = false;
    proof {
        assert(s@.subrange(0, n as int) =~= s@);
        assert(acc.deep_view() =~= Seq::<FieldModel>::empty());
    }
    while !finished
        invariant
            n == s@.len(),
            0 <= pos <= n,
            !finished ==> parse_lines_spec(
                split_lines(s@.subrange(pos as int, n as int)),
                acc.deep_view(),
            ) == parse_doc_spec(s@),
            finished ==> parse_doc_spec(s@) == Ok::<Seq<FieldModel>, Seq<char>>(acc.deep_view()),
        decreases n - pos + (if finished {
            0int
        } else {
            1int
        }),
    {
        let ghost rem = s@.subrange(pos as int, n as int);
        let nl = find_char_str(s, pos, '\n');
        let line_end: usize = match nl {
            Some(j) => j,
            None => n,
        };
        let line = s.substring_char(pos, line_end);
        proof {
            assert(forall|m: int| 0 <= m < rem.len() ==> rem[m] == s@[pos + m]);
            lemma_find_char(s@, pos as int, '\n');
            lemma_find_char_is(rem, 0, line_end - pos, '\n');
            assert(line@ =~= rem.subrange(0, line_end - pos));
            if nl is Some {
                assert(split_lines(rem) == seq![rem.subrange(0, line_end - pos)] + split_lines(
                    rem.subrange(line_end - pos + 1, rem.len() as int),
                ));
                assert(rem.subrange(line_end - pos + 1, rem.len() as int) =~= s@.subrange(
                    line_end + 1,
                    n as int,
                ));
                assert(split_lines(rem)[0] == line@);
                assert(split_lines(rem).drop_first() =~= split_lines(
                    s@.subrange(line_end + 1, n as int),
                ));
            } else {
                assert(split_lines(rem) == seq![rem]);
                assert(line@ =~= rem);
                assert(split_lines(rem)[0] == line@);
                assert(split_lines(rem).drop_first() =~= Seq::<Seq<char>>::empty());
            }
        }
        match parse_line_str(line) {
            Err(e) => {
                return Err(e);
            },
            Ok(of) => {
                match of {
                    Some(f) => {
                        if table_contains_key(&acc, &f.key) {
                            return Err("duplicate key".to_owned());
                        }
                        let ghost fv = f.deep_view();
                        let ghost accv = acc.deep_view();
                        acc.push(f);
                        proof {
                            assert(acc.deep_view() =~= accv.push(fv));
                        }
                    },
                    None => {},
                }
            },
        }
        if nl.is_some() {
            pos = line_end + 1;
        } else {
            finished = true;
            proof {
                assert(parse_lines_spec(Seq::<Seq<char>>::empty(), acc.deep_view())
                    == Ok::<Seq<FieldModel>, Seq<char>>(acc.deep_view()));
            }
        }
    }
    Ok(acc)
}

// ---------------------------------------------------------------------------
// The emitter.
// ---------------------------------------------------------------------------
/// The serialized form of one value.
pub open spec fn emit_value(v: ValueModel) -> Seq<char> {
    match v {
        ValueModel::Bool(b) => if b {
            "true"@
        } else {
            "false"@
        },
        ValueModel::Str(s) => "\""@ + s + "\""@,
    }
}

/// The serialized form of one field, without its line break.
pub open spec fn emit_line(f: FieldModel) -> Seq<char> {
    f.key + " = "@ + emit_value(f.value)
}

/// The serialized form of one field: one `key = value` line.
pub open spec fn emit_field(f: FieldModel) -> Seq<char> {
    emit_line(f) + "\n"@
}

/// The serialized form of a fragment: its fields, one line each, in order.
pub open spec fn emit_fields(t: Seq<FieldModel>) -> Seq<char>
    decreases t.len(),
{
    if t.len() == 0 {
        Seq::<char>::empty()
    } else {
        emit_field(t[0]) + emit_fields(t.drop_first())
    }
}

/// The serialized form of a whole document: the `type` line first, then the
/// retained fields in their original order.
pub open spec fn emit_document(tag: Seq<char>, t: Seq<FieldModel>) -> Seq<char> {
    emit_field(FieldModel { key: "type"@, value: ValueModel::Str(tag) }) + emit_fields(t)
}

fn push_value(out: &mut String, v: &Value)
    ensures
        final(out)@ == old(out)@ + emit_value(v.deep_view()),
{
    match v {
        Value::Bool(b) => {
            if *b {
                out.append("true");
            } else {
                out.append("false");
            }
        },
        Value::Str(s) => {
            out.append("\"");
            out.append(s.as_str());
            out.append("\"");
            proof {
                assert(out@ =~= old(out)@ + emit_value(v.deep_view()));
            }
        },
    }
}

fn push_field(out: &mut String, f: &Field)
    ensures
        final(out)@ == old(out)@ + emit_field(f.deep_view()),
{
    out.append(f.key.as_str());
    out.append(" = ");
    push_value(out, &f.value);
    out.append("\n");
    proof {
        assert(out@ =~= old(out)@ + emit_field(f.deep_view()));
    }
}

/// Serialize a document: `type = "<tag>"`, then each field of `t` as one
/// `key = value` line, in order.
pub fn emit_document_string(tag: &String, t: &Table) -> (r: String)
    ensures
        r@ == emit_document(tag@, t.deep_view()),
{
    let mut out = String::new();
    out.append("type");
    out.append(" = ");
    out.append("\"");
    out.append(tag.as_str());
    out.append("\"");
    out.append("\n");
    proof {
        assert(out@ =~= emit_field(FieldModel { key: "type"@, value: ValueModel::Str(tag@) }));
        assert(t.deep_view().skip(0) =~= t.deep_view());
        assert(out@ + emit_fields(t.deep_view()) =~= emit_document(tag@, t.deep_view()));
    }
    let mut i: usize = 0;
    while i < t.len()
        invariant
            0 <= i <= t.len(),
            out@ + emit_fields(t.deep_view().skip(i as int)) == emit_document(
                tag@,
                t.deep_view(),
            ),
        decreases t.len() - i,
    {
        proof {
            assert(t.deep_view().skip(i as int)[0] == t.deep_view()[i as int]);
            assert(t.deep_view().skip(i as int).drop_first() =~= t.deep_view().skip(i + 1));
        }
        let ghost out0 = out@;
        push_field(&mut out, &t[i]);
        proof {
            assert(out@ + emit_fields(t.deep_view().skip(i + 1)) =~= out0 + emit_fields(
                t.deep_view().skip(i as int),
            ));
        }
        i = i + 1;
    }
    proof {
        assert(t.deep_view().skip(t.deep_view().len() as int) =~= Seq::<FieldModel>::empty());
        assert(out@ =~= emit_document(tag@, t.deep_view()));
    }
    out
}

// ---------------------------------------------------------------------------
// Encodability: what the emitter re-reads unchanged.
// ---------------------------------------------------------------------------
/// A string that can stand between quotes and come back unchanged: it holds
/// no quote and no line break.
pub open spec fn encodable_str(s: Seq<char>) -> bool {
    forall|i: int| 0 <= i < s.len() ==> s[i] != '"' && s[i] != '\n'
}

/// A key the grammar accepts as a bare key.
pub open spec fn encodable_key(k: Seq<char>) -> bool {
    k.len() > 0 && (forall|i: int| 0 <= i < k.len() ==> is_key_char(k[i]))
}

/// A value the emitter can write and the parser reads back unchanged.
pub open spec fn encodable_value(v: ValueModel) -> bool {
    match v {
        ValueModel::Bool(_) => true,
        ValueModel::Str(s) => encodable_str(s),
    }
}

/// A field the emitter can write and the parser reads back unchanged.
pub open spec fn encodable_field(f: FieldModel) -> bool {
    encodable_key(f.key) && encodable_value(f.value)
}

/// A fragment the emitter can write and the parser reads back unchanged.
pub open spec fn encodable_fields(t: Seq<FieldModel>) -> bool {
    forall|i: int| 0 <= i < t.len() ==> encodable_field(#[trigger] t[i])
}

/// The serialized form of an encodable field holds no line break.
pub proof fn lemma_emit_line_no_newline(f: FieldModel)
    requires
        encodable_field(f),
    ensures
        forall|i: int| 0 <= i < emit_line(f).len() ==> emit_line(f)[i] != '\n',
{
    reveal_strlit(" = ");
    reveal_strlit("\"");
    reveal_strlit("true");
    reveal_strlit("false");
    let l = emit_line(f);
    let kl = f.key.len() as int;
    let ev = emit_value(f.value);
    assert forall|i: int| 0 <= i < l.len() implies l[i] != '\n' by {
        if i < kl {
            assert(l[i] == f.key[i]);
            assert(is_key_char(f.key[i]));
        } else if i < kl + 3 {
            assert(l[i] == " = "@[i - kl]);
        } else {
            assert(l[i] == ev[i - kl - 3]);
            match f.value {
                ValueModel::Bool(b) => {
                },
                ValueModel::Str(s) => {
                    let m = i - kl - 3;
                    if 1 <= m < s.len() + 1 {
                        assert(ev[m] == s[m - 1]);
                    }
                },
            }
        }
    }
}

/// Splitting starts at the first line: a newline-free prefix becomes the
/// first line, and the rest splits on its own.
pub proof fn lemma_split_first_line(content: Seq<char>, rest: Seq<char>)
    requires
        forall|i: int| 0 <= i < content.len() ==> content[i] != '\n',
    ensures
        split_lines(content + "\n"@ + rest) == seq![content] + split_lines(rest),
{
    reveal_strlit("\n");
    let s = content + "\n"@ + rest;
    let cl = content.len() as int;
    assert(s[cl] == '\n');
    assert(forall|m: int| 0 <= m < cl ==> s[m] == content[m]);
    lemma_find_char_is(s, 0, cl, '\n');
    assert(s.subrange(0, cl) =~= content);
    assert(s.subrange(cl + 1, s.len() as int) =~= rest);
    assert(split_lines(s) == seq![s.subrange(0, cl)] + split_lines(
        s.subrange(cl + 1, s.len() as int),
    ));
    assert(seq![s.subrange(0, cl)] + split_lines(rest) =~= seq![content] + split_lines(rest));
}

/// An emitted line parses back to exactly the field it came from.
pub proof fn lemma_parse_emit_line(f: FieldModel)
    requires
        encodable_field(f),
    ensures
        parse_line_spec(emit_line(f)) == Ok::<Option<FieldModel>, Seq<char>>(Some(f)),
{
    reveal_strlit(" = ");
    reveal_strlit("\"");
    reveal_strlit("true");
    reveal_strlit("false");
    let l = emit_line(f);
    let kl = f.key.len() as int;
    let ev = emit_value(f.value);
    assert(l.len() == kl + 3 + ev.len());
    assert(forall|m: int| 0 <= m < kl ==> l[m] == f.key[m]);
    assert(l[kl] == ' ' && l[kl + 1] == '=' && l[kl + 2] == ' ');
    assert(forall|m: int| 0 <= m < ev.len() ==> l[kl + 3 + m] == ev[m]);
    assert(!is_ws_char(l[0]) && !is_key_char(l[kl]) && !is_ws_char(l[kl + 1]));
    lemma_skip_ws_is(l, 0, 0);
    lemma_scan_key_is(l, 0, kl);
    lemma_skip_ws_is(l, kl, kl + 1);
    lemma_skip_ws_is(l, kl + 2, kl + 3);
    let i2 = kl + 3;
    assert(l.subrange(0, kl) =~= f.key);
    match f.value {
        ValueModel::Str(s) => {
            let sl = s.len() as int;
            assert(ev[0] == '"' && ev[sl + 1] == '"');
            assert(forall|m: int| 0 <= m < sl ==> ev[m + 1] == s[m]);
            assert(l[i2] == '"');
            assert(forall|m: int| i2 + 1 <= m < i2 + 1 + sl ==> l[m] != '"');
            assert(l[i2 + 1 + sl] == '"');
            lemma_find_char_is(l, i2 + 1, i2 + 1 + sl, '"');
            assert(l.subrange(i2 + 1, i2 + 1 + sl) =~= s);
            let i3 = i2 + 1 + sl + 1;
            assert(i3 == l.len());
            lemma_skip_ws_is(l, i3, i3);
            assert(parse_value_at(l, i2) == Ok::<(ValueModel, int), Seq<char>>(
                (ValueModel::Str(s), i3),
            ));
            assert(FieldModel { key: l.subrange(0, kl), value: ValueModel::Str(s) } =~= f);
        },
        ValueModel::Bool(b) => {
            if b {
                assert(ev == "true"@);
                assert(l[i2] == 't' && l[i2 + 1] == 'r' && l[i2 + 2] == 'u' && l[i2 + 3] == 'e');
                assert(matches_true(l, i2));
                let i3 = i2 + 4;
                assert(i3 == l.len());
                lemma_skip_ws_is(l, i3, i3);
                assert(parse_value_at(l, i2) == Ok::<(ValueModel, int), Seq<char>>(
                    (ValueModel::Bool(true), i3),
                ));
                assert(FieldModel { key: l.subrange(0, kl), value: ValueModel::Bool(true) } =~= f);
            } else {
                assert(ev == "false"@);
                assert(l[i2] == 'f' && l[i2 + 1] == 'a' && l[i2 + 2] == 'l' && l[i2 + 3] == 's'
                    && l[i2 + 4] == 'e');
                assert(!matches_true(l, i2));
                assert(matches_false(l, i2));
                let i3 = i2 + 5;
                assert(i3 == l.len());
                lemma_skip_ws_is(l, i3, i3);
                assert(parse_value_at(l, i2) == Ok::<(ValueModel, int), Seq<char>>(
                    (ValueModel::Bool(false), i3),
                ));
                assert(FieldModel { key: l.subrange(0, kl), value: ValueModel::Bool(false) }
                    =~= f);
            }
        },
    }
}

/// Emitted fields parse back to exactly the fields they came from, appended
/// to whatever was already collected.
pub proof fn lemma_parse_emit_fields(t: Seq<FieldModel>, acc: Seq<FieldModel>)
    requires
        encodable_fields(t),
        distinct_keys(t),
        forall|i: int| 0 <= i < t.len() ==> !table_has_key(acc, #[trigger] t[i].key),
    ensures
        parse_lines_spec(split_lines(emit_fields(t)), acc) == Ok::<Seq<FieldModel>, Seq<char>>(
            acc + t,
        ),
    decreases t.len(),
{
    if t.len() == 0 {
        let e = Seq::<char>::empty();
        assert(emit_fields(t) == e);
        assert(split_lines(e) == seq![e]);
        assert(parse_line_spec(e) == Ok::<Option<FieldModel>, Seq<char>>(None));
        assert(seq![e].drop_first() =~= Seq::<Seq<char>>::empty());
        assert(parse_lines_spec(seq![e], acc) == parse_lines_spec(
            Seq::<Seq<char>>::empty(),
            acc,
        ));
        assert(parse_lines_spec(Seq::<Seq<char>>::empty(), acc) == Ok::<
            Seq<FieldModel>,
            Seq<char>,
        >(acc));
        assert(acc + t =~= acc);
    } else {
        let f = t[0];
        let rest = t.drop_first();
        assert(encodable_field(f));
        assert(forall|i: int| 0 <= i < rest.len() ==> rest[i] == t[i + 1]);
        lemma_emit_line_no_newline(f);
        lemma_split_first_line(emit_line(f), emit_fields(rest));
        assert(emit_fields(t) == emit_field(f) + emit_fields(rest));
        assert(emit_field(f) + emit_fields(rest) =~= emit_line(f) + "\n"@ + emit_fields(rest));
        let lines = split_lines(emit_fields(t));
        assert(lines == seq![emit_line(f)] + split_lines(emit_fields(rest)));
        assert(lines[0] == emit_line(f));
        assert(lines.drop_first() =~= split_lines(emit_fields(rest)));
        lemma_parse_emit_line(f);
        assert(!table_has_key(acc, f.key));
        assert(encodable_fields(rest));
        assert(distinct_keys(rest));
        assert forall|i: int| 0 <= i < rest.len() implies !table_has_key(
            acc.push(f),
            #[trigger] rest[i].key,
        ) by {
            assert(rest[i] == t[i + 1]);
            assert(!table_has_key(acc, t[i + 1].key));
            assert(t[0].key != t[i + 1].key);
            let rk = rest[i].key;
            assert forall|m: int| 0 <= m < acc.push(f).len() implies acc.push(f)[m].key != rk by {
                if m < acc.len() {
                    assert(acc.push(f)[m] == acc[m]);
                } else {
                    assert(acc.push(f)[m] == f);
                }
            }
        }
        lemma_parse_emit_fields(rest, acc.push(f));
        assert(parse_lines_spec(lines, acc) == parse_lines_spec(
            lines.drop_first(),
            acc.push(f),
        ));
        assert(acc.push(f) + rest =~= acc + t);
    }
}

/// An emitted document parses back to the `type` binding followed by the
/// fields it came from.
pub proof fn lemma_emit_parse(tag: Seq<char>, frag: Seq<FieldModel>)
    requires
        tag.len() > 0,
        encodable_str(tag),
        encodable_fields(frag),
        distinct_keys(frag),
        forall|i: int| 0 <= i < frag.len() ==> (#[trigger] frag[i].key) != "type"@,
    ensures
        parse_doc_spec(emit_document(tag, frag)) == Ok::<Seq<FieldModel>, Seq<char>>(
            seq![FieldModel { key: "type"@, value: ValueModel::Str(tag) }] + frag,
        ),
{
    reveal_strlit("type");
    let tf = FieldModel { key: "type"@, value: ValueModel::Str(tag) };
    assert(encodable_key("type"@));
    assert(encodable_field(tf));
    lemma_emit_line_no_newline(tf);
    lemma_split_first_line(emit_line(tf), emit_fields(frag));
    assert(emit_document(tag, frag) =~= emit_line(tf) + "\n"@ + emit_fields(frag));
    let lines = split_lines(emit_document(tag, frag));
    assert(lines == seq![emit_line(tf)] + split_lines(emit_fields(frag)));
    assert(lines[0] == emit_line(tf));
    assert(lines.drop_first() =~= split_lines(emit_fields(frag)));
    lemma_parse_emit_line(tf);
    let acc0 = Seq::<FieldModel>::empty();
    assert(!table_has_key(acc0, tf.key));
    assert forall|i: int| 0 <= i < frag.len() implies !table_has_key(
        acc0.push(tf),
        #[trigger] frag[i].key,
    ) by {
        let fk = frag[i].key;
        assert forall|m: int| 0 <= m < acc0.push(tf).len() implies acc0.push(tf)[m].key != fk by {
            assert(acc0.push(tf)[m] == tf);
        }
    }
    lemma_parse_emit_fields(frag, acc0.push(tf));
    assert(acc0.push(tf) + frag =~= seq![tf] + frag);
}

// ---------------------------------------------------------------------------
// What parsing guarantees of its own output.
// ---------------------------------------------------------------------------
/// A parsed binding is encodable: its key is a bare key, and its string
/// value holds no quote and no line break.
pub proof fn lemma_parse_line_wf(l: Seq<char>)
    requires
        forall|i: int| 0 <= i < l.len() ==> l[i] != '\n',
    ensures
        match parse_line_spec(l) {
            Ok(Some(f)) => encodable_field(f),
            _ => true,
        },
{
    lemma_skip_ws(l, 0);
    let i0 = skip_ws(l, 0);
    if i0 < l.len() {
        lemma_scan_key(l, i0);
        let k = scan_key(l, i0);
        if k > i0 {
            lemma_skip_ws(l, k);
            let i1 = skip_ws(l, k);
            if i1 < l.len() && l[i1] == '=' {
                lemma_skip_ws(l, i1 + 1);
                let i2 = skip_ws(l, i1 + 1);
                assert(l.subrange(i0, k).len() > 0);
                assert(forall|m: int|
                    0 <= m < k - i0 ==> is_key_char(#[trigger] l.subrange(i0, k)[m]));
                assert(encodable_key(l.subrange(i0, k)));
                if i2 < l.len() && l[i2] == '"' {
                    lemma_find_char(l, i2 + 1, '"');
                    match find_char(l, i2 + 1, '"') {
                        Some(j) => {
                            assert(forall|m: int|
                                0 <= m < j - i2 - 1 ==> #[trigger] l.subrange(i2 + 1, j)[m]
                                    != '"' && l.subrange(i2 + 1, j)[m] != '\n');
                            assert(encodable_str(l.subrange(i2 + 1, j)));
                        },
                        None => {
                        },
                    }
                }
            }
        }
    }
}

/// No line produced by splitting holds a line break.
pub proof fn lemma_split_lines_no_newline(s: Seq<char>)
    ensures
        forall|k: int, m: int|
            #![trigger split_lines(s)[k][m]]
            0 <= k < split_lines(s).len() && 0 <= m < split_lines(s)[k].len() ==> split_lines(
                s,
            )[k][m] != '\n',
    decreases s.len(),
{
    lemma_find_char(s, 0, '\n');
    match find_char(s, 0, '\n') {
        None => {
        },
        Some(j) => {
            let rest = s.subrange(j + 1, s.len() as int);
            lemma_split_lines_no_newline(rest);
            assert(split_lines(s) == seq![s.subrange(0, j)] + split_lines(rest));
            assert(forall|k: int|
                1 <= k < split_lines(s).len() ==> #[trigger] split_lines(s)[k] == split_lines(
                    rest,
                )[k - 1]);
        },
    }
}

/// Collected bindings stay encodable and distinct.
pub proof fn lemma_parse_lines_wf(lines: Seq<Seq<char>>, acc: Seq<FieldModel>)
    requires
        forall|k: int, m: int|
            #![trigger lines[k][m]]
            0 <= k < lines.len() && 0 <= m < lines[k].len() ==> lines[k][m] != '\n',
        encodable_fields(acc),
        distinct_keys(acc),
    ensures
        match parse_lines_spec(lines, acc) {
            Ok(t) => encodable_fields(t) && distinct_keys(t),
            Err(_) => true,
        },
    decreases lines.len(),
{
    if lines.len() > 0 {
        assert(forall|k: int|
            0 <= k < lines.drop_first().len() ==> #[trigger] lines.drop_first()[k] == lines[k
                + 1]);
        lemma_parse_line_wf(lines[0]);
        match parse_line_spec(lines[0]) {
            Ok(of) => {
                match of {
                    Some(f) => {
                        if !table_has_key(acc, f.key) {
                            assert forall|i: int, j: int|
                                0 <= i < j < acc.push(f).len() implies acc.push(f)[i].key
                                != acc.push(f)[j].key by {
                                if j < acc.len() {
                                    assert(acc.push(f)[i] == acc[i] && acc.push(f)[j] == acc[j]);
                                } else {
                                    assert(acc.push(f)[i] == acc[i] && acc.push(f)[j] == f);
                                    assert(acc[i].key != f.key);
                                }
                            }
                            assert(encodable_fields(acc.push(f))) by {
                                assert(forall|i: int|
                                    0 <= i < acc.len() ==> acc.push(f)[i] == #[trigger] acc[i]);
                                assert(acc.push(f)[acc.len() as int] == f);
                            }
                            lemma_parse_lines_wf(lines.drop_first(), acc.push(f));
                        }
                    },
                    None => {
                        lemma_parse_lines_wf(lines.drop_first(), acc);
                    },
                }
            },
            Err(_) => {
            },
        }
    }
}

/// A parsed document is encodable and binds every key at most once.
pub proof fn lemma_parse_doc_wf(s: Seq<char>)
    ensures
        match parse_doc_spec(s) {
            Ok(t) => encodable_fields(t) && distinct_keys(t),
            Err(_) => true,
        },
{
    lemma_split_lines_no_newline(s);
    lemma_parse_lines_wf(split_lines(s), Seq::<FieldModel>::empty());
}

} // verus!
