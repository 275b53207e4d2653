use vstd::prelude::*;
use vstd::std_specs::iter::IteratorSpec;
use vstd::string::StringExecFns;

use crate::record::{RecordView, Todo, TodoFile};

verus! {

/// A lowercase hexadecimal digit, for `n` below 16.
pub open spec fn hex_digit(n: int) -> char {
    seq!['0', '1', '2', '3', '4', '5', '6', '7', '8', '9', 'a', 'b', 'c', 'd', 'e', 'f'][n]
}

/// How one character stands inside a JSON string as serde_json writes it: a
/// quote, a backslash and each control character are escaped, every other
/// character stands as it is.
pub open spec fn escape_char(ch: char) -> Seq<char> {
    if ch == '"' {
        seq!['\\', '"']
    } else if ch == '\\' {
        seq!['\\', '\\']
    } else if ch == '\u{8}' {
        seq!['\\', 'b']
    } else if ch == '\t' {
        seq!['\\', 't']
    } else if ch == '\n' {
        seq!['\\', 'n']
    } else if ch == '\u{c}' {
        seq!['\\', 'f']
    } else if ch == '\r' {
        seq!['\\', 'r']
    } else if (ch as u32) < 0x20 {
        seq!['\\', 'u', '0', '0', hex_digit((ch as u32) as int / 16), hex_digit((ch as u32) as int % 16)]
    } else {
        seq![ch]
    }
}

/// The characters of `s`, each escaped.
pub open spec fn escaped(s: Seq<char>) -> Seq<char>
    decreases s.len(),
{
    if s.len() == 0 {
        Seq::empty()
    } else {
        escaped(s.drop_last()) + escape_char(s.last())
    }
}

/// What serde_json writes for a string value: its escaped characters between
/// quotes.
pub open spec fn json_quoted(s: Seq<char>) -> Seq<char> {
    seq!['"'] + escaped(s) + seq!['"']
}

/// What serde_json reads back from a JSON string token: `None` where the
/// token is not one well-formed JSON string.
pub uninterp spec fn json_unquoted(tok: Seq<char>) -> Option<Seq<char>>;

/// Scanning a JSON string body from `i`: the index of the quote that closes
/// it, stepping over each backslash escape; -1 where none closes it.
pub open spec fn closing_quote(s: Seq<char>, i: int) -> int
    decreases s.len() - i,
{
    if i < 0 || i >= s.len() {
        -1
    } else if s[i] == '"' {
        i
    } else if s[i] == '\\' {
        if i + 1 >= s.len() {
            -1
        } else {
            closing_quote(s, i + 2)
        }
    } else {
        closing_quote(s, i + 1)
    }
}

/// `q` is one JSON string token: it opens with a quote, and the first
/// unescaped quote after that is its last character.
pub open spec fn is_string_token(q: Seq<char>) -> bool {
    &&& q.len() >= 2
    &&& q[0] == '"'
    &&& closing_quote(q, 1) == q.len() - 1
}

/// Reading the quoted form of `t` gives `t` back.
pub open spec fn quotes_back(t: Seq<char>) -> bool {
    json_unquoted(json_quoted(t)) == Some(t)
}

/// Relies on serde_json's serializer for a string value (`Value::String`
/// written through `Display`, which escapes by its `ESCAPE` table), and on
/// its deserializer reading that token back as `s`.
#[verifier::external_body]
fn quote(s: &str) -> (r: String)
    ensures
        r@ == json_quoted(s@),
        json_unquoted(r@) == Some(s@),
{
    serde_json::Value::String(s.to_string()).to_string()
}

/// Relies on `serde_json::from_str::<String>`: decodes one JSON string token.
#[verifier::external_body]
fn unquote(tok: &str) -> (r: Option<String>)
    ensures
        match r {
            Some(v) => json_unquoted(tok@) == Some(v@),
            None => json_unquoted(tok@) is None,
        },
{
    serde_json::from_str::<String>(tok).ok()
}

/// The characters of `s`, in order.
fn chars_of(s: &str) -> (r: Vec<char>)
    ensures
        r@ == s@,
{
    broadcast use vstd::string::group_string_axioms, vstd::string::next_postcondition;

    let mut v: Vec<char> = Vec::new();
    let mut it = s.chars();
    loop
        invariant
            v@ + it.remaining() == s@,
            it.decrease() is Some,
        decreases it.decrease()->0,
    {
        match it.next() {
            Some(c) => v.push(c),
            None => {
                assert(v@ =~= s@);
                return v;
            },
        }
    }
}

pub open spec fn title_key() -> Seq<char> {
    seq!['t', 'i', 't', 'l', 'e']
}

pub open spec fn content_key() -> Seq<char> {
    seq!['c', 'o', 'n', 't', 'e', 'n', 't']
}

pub open spec fn list_key() -> Seq<char> {
    seq!['t', 'o', 'd', 'o', '_', 'l', 'i', 's', 't']
}

/// One record as a JSON object: `{"title":..,"content":..}`.
pub open spec fn encode_record(r: RecordView) -> Seq<char> {
    seq!['{'] + json_quoted(title_key()) + seq![':'] + json_quoted(r.0) + seq![','] + json_quoted(
        content_key(),
    ) + seq![':'] + json_quoted(r.1) + seq!['}']
}

/// The records as the comma-separated elements of a JSON array.
pub open spec fn encode_records(c: Seq<RecordView>) -> Seq<char>
    decreases c.len(),
{
    if c.len() == 0 {
        Seq::empty()
    } else if c.len() == 1 {
        encode_record(c[0])
    } else {
        encode_records(c.drop_last()) + seq![','] + encode_record(c.last())
    }
}

/// The whole document: `{"todo_list":[..]}`, with no whitespace.
pub open spec fn encode_collection(c: Seq<RecordView>) -> Seq<char> {
    seq!['{'] + json_quoted(list_key()) + seq![':', '['] + encode_records(c) + seq![']', '}']
}

/// Every title and content of `c` quotes back.
pub open spec fn all_quote_back(c: Seq<RecordView>) -> bool {
    forall|i: int| 0 <= i < c.len() ==> quotes_back(#[trigger] c[i].0) && quotes_back(c[i].1)
}

pub open spec fn is_ws(ch: char) -> bool {
    ch == ' ' || ch == '\t' || ch == '\n' || ch == '\r'
}

/// The first index at or after `i` that holds no JSON whitespace.
pub open spec fn skip_ws(s: Seq<char>, i: int) -> int
    decreases s.len() - i,
{
    if 0 <= i < s.len() && is_ws(s[i]) {
        skip_ws(s, i + 1)
    } else {
        i
    }
}

/// After optional whitespace, the character `ch`: the index just past it.
pub open spec fn punct_at(s: Seq<char>, i: int, ch: char) -> Option<int> {
    let j = skip_ws(s, i);
    if 0 <= j < s.len() && s[j] == ch {
        Some(j + 1)
    } else {
        None
    }
}

/// After optional whitespace, one JSON string: its value and the index past it.
pub open spec fn string_at(s: Seq<char>, i: int) -> Option<(Seq<char>, int)> {
    let j = skip_ws(s, i);
    if 0 <= j < s.len() && s[j] == '"' {
        let e = closing_quote(s, j + 1);
        if e > j {
            match json_unquoted(s.subrange(j, e + 1)) {
                Some(v) => Some((v, e + 1)),
                None => None,
            }
        } else {
            None
        }
    } else {
        None
    }
}

/// An object member whose value is a string: key, value, index past it.
pub open spec fn member_at(s: Seq<char>, i: int) -> Option<(Seq<char>, Seq<char>, int)> {
    match string_at(s, i) {
        Some((k, p)) => match punct_at(s, p, ':') {
            Some(q) => match string_at(s, q) {
                Some((v, e)) => Some((k, v, e)),
                None => None,
            },
            None => None,
        },
        None => None,
    }
}

/// One record object, with its two members in either order.
pub open spec fn record_at(s: Seq<char>, i: int) -> Option<(RecordView, int)> {
    match punct_at(s, i, '{') {
        Some(p0) => match member_at(s, p0) {
            Some((k1, v1, p1)) => match punct_at(s, p1, ',') {
                Some(p2) => match member_at(s, p2) {
                    Some((k2, v2, p3)) => match punct_at(s, p3, '}') {
                        Some(e) => if k1 == title_key() && k2 == content_key() {
                            Some(((v1, v2), e))
                        } else if k1 == content_key() && k2 == title_key() {
                            Some(((v2, v1), e))
                        } else {
                            None
                        },
                        None => None,
                    },
                    None => None,
                },
                None => None,
            },
            None => None,
        },
        None => None,
    }
}

/// The records of a non-empty array from `i` on, after those in `acc`, up
/// to and past the closing bracket.
pub open spec fn records_from(s: Seq<char>, i: int, acc: Seq<RecordView>) -> Option<
    (Seq<RecordView>, int),
>
    decreases s.len() - i,
{
    match record_at(s, i) {
        Some((r, p)) => match punct_at(s, p, ',') {
            Some(q) => if i < q <= s.len() {
                records_from(s, q, acc.push(r))
            } else {
                None
            },
            None => match punct_at(s, p, ']') {
                Some(e) => Some((acc.push(r), e)),
                None => None,
            },
        },
        None => None,
    }
}

/// An array of records: the records and the index past it.
pub open spec fn list_at(s: Seq<char>, i: int) -> Option<(Seq<RecordView>, int)> {
    match punct_at(s, i, '[') {
        Some(p) => match punct_at(s, p, ']') {
            Some(e) => Some((Seq::empty(), e)),
            None => records_from(s, p, Seq::empty()),
        },
        None => None,
    }
}

/// The collection that a document holds; `None` where it is malformed.
pub open spec fn parse_collection(s: Seq<char>) -> Option<Seq<RecordView>> {
    match punct_at(s, 0, '{') {
        Some(p0) => match string_at(s, p0) {
            Some((k, p1)) => match punct_at(s, p1, ':') {
                Some(p2) => match list_at(s, p2) {
                    Some((c, p3)) => match punct_at(s, p3, '}') {
                        Some(e) => if k == list_key() && skip_ws(s, e) == s.len() {
                            Some(c)
                        } else {
                            None
                        },
                        None => None,
                    },
                    None => None,
                },
                None => None,
            },
            None => None,
        },
        None => None,
    }
}

/// `s` holds `w` from index `a` on.
pub open spec fn holds_at(s: Seq<char>, a: int, w: Seq<char>) -> bool {
    &&& 0 <= a
    &&& a + w.len() <= s.len()
    &&& s.subrange(a, a + w.len()) == w
}

proof fn lemma_holds_split(s: Seq<char>, a: int, x: Seq<char>, y: Seq<char>)
    requires
        holds_at(s, a, x + y),
    ensures
        holds_at(s, a, x),
        holds_at(s, a + x.len(), y),
{
    assert forall|i: int| 0 <= i < x.len() implies s[a + i] == x[i] by {
        assert(s.subrange(a, a + (x + y).len())[i] == (x + y)[i]);
    }
    assert forall|i: int| 0 <= i < y.len() implies s[a + x.len() + i] == y[i] by {
        assert(s.subrange(a, a + (x + y).len())[x.len() + i] == (x + y)[x.len() + i]);
    }
    assert(s.subrange(a, a + x.len()) =~= x);
    assert(s.subrange(a + x.len(), a + x.len() + y.len()) =~= y);
}

proof fn lemma_holds_prefix(s: Seq<char>, a: int, w: Seq<char>, n: int)
    requires
        holds_at(s, a, w),
        0 <= n <= w.len(),
    ensures
        holds_at(s, a, w.subrange(0, n)),
{
    assert(w =~= w.subrange(0, n) + w.subrange(n, w.len() as int));
    lemma_holds_split(s, a, w.subrange(0, n), w.subrange(n, w.len() as int));
}

proof fn lemma_closing_shift(s: Seq<char>, a: int, q: Seq<char>, k: int)
    requires
        holds_at(s, a, q),
        1 <= k,
        closing_quote(q, k) >= 0,
    ensures
        closing_quote(s, a + k) == a + closing_quote(q, k),
    decreases q.len() - k,
{
    assert(s[a + k] == s.subrange(a, a + q.len())[k]);
    if q[k] == '\\' {
        assert(s[a + k + 1] == s.subrange(a, a + q.len())[k + 1]);
        lemma_closing_shift(s, a, q, k + 2);
    } else if q[k] != '"' {
        lemma_closing_shift(s, a, q, k + 1);
    }
}

proof fn lemma_escape_unit(s: Seq<char>, p: int, ch: char)
    requires
        holds_at(s, p, escape_char(ch)),
    ensures
        closing_quote(s, p) == closing_quote(s, p + escape_char(ch).len()),
{
    let e = escape_char(ch);
    assert forall|i: int| 0 <= i < e.len() implies s[p + i] == e[i] by {
        assert(s.subrange(p, p + e.len())[i] == e[i]);
    }
    if e.len() == 6 {
        let n = (ch as u32) as int;
        assert(0 <= n / 16 < 16 && 0 <= n % 16 < 16);
        let digits = seq!['0', '1', '2', '3', '4', '5', '6', '7', '8', '9', 'a', 'b', 'c', 'd', 'e', 'f'];
        assert(forall|k: int| 0 <= k < 16 ==> #[trigger] digits[k] != '"' && digits[k] != '\\');
        assert(e[4] != '"' && e[4] != '\\' && e[5] != '"' && e[5] != '\\');
        assert(closing_quote(s, p + 5) == closing_quote(s, p + 6));
        assert(closing_quote(s, p + 4) == closing_quote(s, p + 5));
        assert(closing_quote(s, p + 3) == closing_quote(s, p + 4));
        assert(closing_quote(s, p + 2) == closing_quote(s, p + 3));
        assert(s[p] == '\\' && p + 1 < s.len());
        assert(closing_quote(s, p) == closing_quote(s, p + 2));
    } else if e.len() == 2 {
        assert(s[p] == '\\' && p + 1 < s.len());
        assert(closing_quote(s, p) == closing_quote(s, p + 2));
    } else {
        assert(e.len() == 1 && e[0] == ch && ch != '"' && ch != '\\');
        assert(s[p] == ch);
        assert(closing_quote(s, p) == closing_quote(s, p + 1));
    }
}

proof fn lemma_escaped_skip(s: Seq<char>, p: int, t: Seq<char>)
    requires
        holds_at(s, p, escaped(t)),
    ensures
        closing_quote(s, p) == closing_quote(s, p + escaped(t).len()),
    decreases t.len(),
{
    if t.len() > 0 {
        let front = escaped(t.drop_last());
        lemma_holds_split(s, p, front, escape_char(t.last()));
        lemma_escaped_skip(s, p, t.drop_last());
        lemma_escape_unit(s, p + front.len(), t.last());
    }
}

/// The quoted form of any string is one string token.
pub proof fn lemma_quoted_token(t: Seq<char>)
    ensures
        is_string_token(json_quoted(t)),
{
    let q = json_quoted(t);
    let e = escaped(t);
    assert(q.subrange(0, q.len() as int) =~= q);
    lemma_holds_split(q, 0, seq!['"'] + e, seq!['"']);
    lemma_holds_split(q, 0, seq!['"'], e);
    lemma_escaped_skip(q, 1, t);
    assert(q[1 + e.len() as int] == '"');
}

proof fn lemma_punct(s: Seq<char>, a: int, ch: char)
    requires
        holds_at(s, a, seq![ch]),
        !is_ws(ch),
    ensures
        punct_at(s, a, ch) == Some(a + 1),
{
    assert(s[a] == s.subrange(a, a + 1)[0]);
}

proof fn lemma_string(s: Seq<char>, a: int, t: Seq<char>)
    requires
        quotes_back(t),
        holds_at(s, a, json_quoted(t)),
    ensures
        string_at(s, a) == Some((t, a + json_quoted(t).len())),
{
    let q = json_quoted(t);
    lemma_quoted_token(t);
    assert(s[a] == s.subrange(a, a + q.len())[0]);
    lemma_closing_shift(s, a, q, 1);
}

proof fn lemma_member(s: Seq<char>, a: int, k: Seq<char>, v: Seq<char>)
    requires
        quotes_back(k),
        quotes_back(v),
        holds_at(s, a, json_quoted(k) + seq![':'] + json_quoted(v)),
    ensures
        member_at(s, a) == Some((k, v, a + (json_quoted(k) + seq![':'] + json_quoted(v)).len())),
{
    let qk = json_quoted(k);
    lemma_holds_split(s, a, qk + seq![':'], json_quoted(v));
    lemma_holds_split(s, a, qk, seq![':']);
    lemma_string(s, a, k);
    lemma_punct(s, a + qk.len(), ':');
    lemma_string(s, a + qk.len() + 1, v);
}

proof fn lemma_record(s: Seq<char>, a: int, r: RecordView)
    requires
        quotes_back(r.0),
        quotes_back(r.1),
        quotes_back(title_key()),
        quotes_back(content_key()),
        holds_at(s, a, encode_record(r)),
    ensures
        record_at(s, a) == Some((r, a + encode_record(r).len())),
{
    let m1 = json_quoted(title_key()) + seq![':'] + json_quoted(r.0);
    let m2 = json_quoted(content_key()) + seq![':'] + json_quoted(r.1);
    assert(encode_record(r) =~= seq!['{'] + m1 + seq![','] + m2 + seq!['}']);
    lemma_holds_split(s, a, seq!['{'] + m1 + seq![','] + m2, seq!['}']);
    lemma_holds_split(s, a, seq!['{'] + m1 + seq![','], m2);
    lemma_holds_split(s, a, seq!['{'] + m1, seq![',']);
    lemma_holds_split(s, a, seq!['{'], m1);
    lemma_punct(s, a, '{');
    lemma_member(s, a + 1, title_key(), r.0);
    lemma_punct(s, a + 1 + m1.len(), ',');
    lemma_member(s, a + 2 + m1.len(), content_key(), r.1);
    lemma_punct(s, a + 2 + m1.len() + m2.len(), '}');
    assert(title_key() != content_key()) by {
        assert(title_key().len() != content_key().len());
    }
}

proof fn lemma_records_prefix(c: Seq<RecordView>, k: int)
    requires
        0 <= k <= c.len(),
    ensures
        encode_records(c.subrange(0, k)).len() <= encode_records(c).len(),
        encode_records(c).subrange(0, encode_records(c.subrange(0, k)).len() as int)
            == encode_records(c.subrange(0, k)),
    decreases c.len(),
{
    if k == c.len() {
        assert(c.subrange(0, k) =~= c);
    } else if c.len() == 1 {
        assert(encode_records(c.subrange(0, k)) =~= Seq::<char>::empty());
        assert(encode_records(c).subrange(0, 0) =~= Seq::<char>::empty());
    } else {
        let d = c.drop_last();
        assert(d.subrange(0, k) =~= c.subrange(0, k));
        lemma_records_prefix(d, k);
        let e = encode_records(c.subrange(0, k));
        assert(encode_records(c) == encode_records(d) + seq![','] + encode_record(c.last()));
        assert(encode_records(c).subrange(0, e.len() as int) =~= encode_records(d).subrange(
            0,
            e.len() as int,
        ));
    }
}

/// Where record `k` starts, relative to the start of the array body.
spec fn record_offset(c: Seq<RecordView>, k: int) -> int {
    encode_records(c.subrange(0, k)).len() + if k > 0 {
        1int
    } else {
        0int
    }
}

proof fn lemma_records_step(c: Seq<RecordView>, k: int)
    requires
        0 <= k < c.len(),
    ensures
        encode_records(c.subrange(0, k + 1)) == (if k > 0 {
            encode_records(c.subrange(0, k)) + seq![',']
        } else {
            Seq::empty()
        }) + encode_record(c[k]),
{
    let sub = c.subrange(0, k + 1);
    assert(sub.drop_last() =~= c.subrange(0, k));
    if k == 0 {
        assert(encode_records(sub) =~= Seq::<char>::empty() + encode_record(c[k]));
    }
}

proof fn lemma_records_from(s: Seq<char>, b: int, c: Seq<RecordView>, k: int)
    requires
        0 <= k < c.len(),
        all_quote_back(c),
        quotes_back(title_key()),
        quotes_back(content_key()),
        holds_at(s, b, encode_records(c) + seq![']']),
    ensures
        records_from(s, b + record_offset(c, k), c.subrange(0, k)) == Some(
            (c, b + encode_records(c).len() + 1),
        ),
    decreases c.len() - k,
{
    let e = encode_records(c);
    let ek = encode_records(c.subrange(0, k));
    let ek1 = encode_records(c.subrange(0, k + 1));
    let pos = b + record_offset(c, k);
    lemma_holds_split(s, b, e, seq![']']);
    lemma_records_prefix(c, k + 1);
    lemma_holds_prefix(s, b, e, ek1.len() as int);
    lemma_records_step(c, k);
    let head = if k > 0 {
        ek + seq![',']
    } else {
        Seq::empty()
    };
    lemma_holds_split(s, b, head, encode_record(c[k]));
    assert(quotes_back(c[k].0) && quotes_back(c[k].1));
    lemma_record(s, pos, c[k]);
    assert(c.subrange(0, k).push(c[k]) =~= c.subrange(0, k + 1));
    if k + 1 < c.len() {
        lemma_records_prefix(c, k + 2);
        lemma_records_step(c, k + 1);
        let ek2 = encode_records(c.subrange(0, k + 2));
        lemma_holds_prefix(s, b, e, ek2.len() as int);
        lemma_holds_split(s, b, ek1 + seq![','], encode_record(c[k + 1]));
        lemma_holds_split(s, b, ek1, seq![',']);
        lemma_punct(s, b + ek1.len(), ',');
        lemma_records_from(s, b, c, k + 1);
    } else {
        assert(c.subrange(0, k + 1) =~= c);
        assert(s[b + e.len()] == s.subrange(b + e.len(), b + e.len() + 1)[0]);
        lemma_punct(s, b + e.len(), ']');
    }
}

proof fn lemma_list(s: Seq<char>, a: int, c: Seq<RecordView>)
    requires
        all_quote_back(c),
        quotes_back(title_key()),
        quotes_back(content_key()),
        holds_at(s, a, seq!['['] + (encode_records(c) + seq![']'])),
    ensures
        list_at(s, a) == Some((c, a + encode_records(c).len() + 2)),
{
    let e = encode_records(c);
    let b = a + 1;
    lemma_holds_split(s, a, seq!['['], e + seq![']']);
    lemma_punct(s, a, '[');
    lemma_holds_split(s, b, e, seq![']']);
    if c.len() == 0 {
        lemma_punct(s, b, ']');
    } else {
        lemma_records_from(s, b, c, 0);
        assert(c.subrange(0, 0) =~= Seq::<RecordView>::empty());
        lemma_records_prefix(c, 1);
        lemma_records_step(c, 0);
        lemma_holds_prefix(s, b, e, encode_record(c[0]).len() as int);
        assert(s[b] == s.subrange(b, b + encode_record(c[0]).len())[0]);
        assert(punct_at(s, b, ']') is None);
    }
}

/// Reading back a written collection gives the same records in the same
/// order, provided serde_json reads each written string back as it was.
pub proof fn lemma_round_trip(c: Seq<RecordView>)
    requires
        all_quote_back(c),
        quotes_back(title_key()),
        quotes_back(content_key()),
        quotes_back(list_key()),
    ensures
        parse_collection(encode_collection(c)) == Some(c),
{
    let s = encode_collection(c);
    let ql = json_quoted(list_key());
    let rest = seq!['['] + (encode_records(c) + seq![']']);
    let head = seq!['{'] + ql + seq![':'];
    assert(s =~= head + rest + seq!['}']);
    assert(s.subrange(0, s.len() as int) =~= s);
    lemma_holds_split(s, 0, head + rest, seq!['}']);
    lemma_holds_split(s, 0, head, rest);
    lemma_holds_split(s, 0, seq!['{'] + ql, seq![':']);
    lemma_holds_split(s, 0, seq!['{'], ql);
    lemma_punct(s, 0, '{');
    lemma_string(s, 1, list_key());
    lemma_punct(s, 1 + ql.len() as int, ':');
    lemma_list(s, head.len() as int, c);
    let end: int = head.len() + rest.len() as int;
    lemma_punct(s, end, '}');
    assert(list_at(s, head.len() as int) == Some((c, end)));
    assert(skip_ws(s, s.len() as int) == s.len());
}

fn skip_ws_exec(v: &Vec<char>, i: usize) -> (r: usize)
    requires
        i <= v@.len(),
    ensures
        r as int == skip_ws(v@, i as int),
        i <= r <= v@.len(),
{
    let mut j: usize = i;
    while j < v.len() && (v[j] == ' ' || v[j] == '\t' || v[j] == '\n' || v[j] == '\r')
        invariant
            i <= j <= v@.len(),
            skip_ws(v@, j as int) == skip_ws(v@, i as int),
        decreases v@.len() - j,
    {
        j = j + 1;
    }
    j
}

fn punct(v: &Vec<char>, i: usize, ch: char) -> (r: Option<usize>)
    requires
        i <= v@.len(),
    ensures
        match r {
            Some(p) => punct_at(v@, i as int, ch) == Some(p as int) && i < p <= v@.len(),
            None => punct_at(v@, i as int, ch) is None,
        },
{
    let j = skip_ws_exec(v, i);
    if j < v.len() && v[j] == ch {
        Some(j + 1)
    } else {
        None
    }
}

fn closing(v: &Vec<char>, i: usize) -> (r: Option<usize>)
    requires
        i <= v@.len(),
    ensures
        match r {
            Some(e) => closing_quote(v@, i as int) == e && i <= e < v@.len(),
            None => closing_quote(v@, i as int) == -1,
        },
{
    let mut j: usize = i;
    while j < v.len()
        invariant
            i <= j <= v@.len(),
            closing_quote(v@, j as int) == closing_quote(v@, i as int),
        decreases v@.len() - j,
    {
        if v[j] == '"' {
            return Some(j);
        } else if v[j] == '\\' {
            if j + 1 >= v.len() {
                return None;
            }
            j = j + 2;
        } else {
            j = j + 1;
        }
    }
    None
}

fn string_tok(text: &str, v: &Vec<char>, i: usize) -> (r: Option<(String, usize)>)
    requires
        v@ == text@,
        i <= v@.len(),
    ensures
        match r {
            Some((t, p)) => string_at(v@, i as int) == Some((t@, p as int)) && i < p <= v@.len(),
            None => string_at(v@, i as int) is None,
        },
{
    let j = skip_ws_exec(v, i);
    if j < v.len() && v[j] == '"' {
        match closing(v, j + 1) {
            Some(e) => {
                let tok = text.substring_char(j, e + 1);
                match unquote(tok) {
                    Some(val) => Some((val, e + 1)),
                    None => None,
                }
            },
            None => None,
        }
    } else {
        None
    }
}

fn member(text: &str, v: &Vec<char>, i: usize) -> (r: Option<(String, String, usize)>)
    requires
        v@ == text@,
        i <= v@.len(),
    ensures
        match r {
            Some((k, val, p)) => member_at(v@, i as int) == Some((k@, val@, p as int)) && i < p
                <= v@.len(),
            None => member_at(v@, i as int) is None,
        },
{
    match string_tok(text, v, i) {
        Some((k, p)) => match punct(v, p, ':') {
            Some(q) => match string_tok(text, v, q) {
                Some((val, e)) => Some((k, val, e)),
                None => None,
            },
            None => None,
        },
        None => None,
    }
}

fn record(text: &str, v: &Vec<char>, i: usize) -> (r: Option<(Todo, usize)>)
    requires
        v@ == text@,
        i <= v@.len(),
    ensures
        match r {
            Some((t, p)) => record_at(v@, i as int) == Some((t@, p as int)) && i < p <= v@.len(),
            None => record_at(v@, i as int) is None,
        },
{
    proof {
        reveal_strlit("title");
        reveal_strlit("content");
    }
    let tkey = String::from_str("title");
    let ckey = String::from_str("content");
    assert(tkey@ =~= title_key());
    assert(ckey@ =~= content_key());
    let p0 = match punct(v, i, '{') {
        Some(p) => p,
        None => return None,
    };
    let (k1, v1, p1) = match member(text, v, p0) {
        Some(m) => m,
        None => return None,
    };
    let p2 = match punct(v, p1, ',') {
        Some(p) => p,
        None => return None,
    };
    let (k2, v2, p3) = match member(text, v, p2) {
        Some(m) => m,
        None => return None,
    };
    let e = match punct(v, p3, '}') {
        Some(p) => p,
        None => return None,
    };
    if k1 == tkey && k2 == ckey {
        Some((Todo { title: v1, content: v2 }, e))
    } else if k1 == ckey && k2 == tkey {
        Some((Todo { title: v2, content: v1 }, e))
    } else {
        None
    }
}

fn records(text: &str, v: &Vec<char>, i: usize) -> (r: Option<(Vec<Todo>, usize)>)
    requires
        v@ == text@,
        i <= v@.len(),
    ensures
        match r {
            Some((c, p)) => records_from(v@, i as int, Seq::empty()) == Some(
                (c@.map_values(|t: Todo| t@), p as int),
            ) && p <= v@.len(),
            None => records_from(v@, i as int, Seq::empty()) is None,
        },
{
    let mut acc: Vec<Todo> = Vec::new();
    let mut p: usize = i;
    assert(acc@.map_values(|t: Todo| t@) =~= Seq::<RecordView>::empty());
    loop
        invariant
            v@ == text@,
            p <= v@.len(),
            records_from(v@, i as int, Seq::empty()) == records_from(
                v@,
                p as int,
                acc@.map_values(|t: Todo| t@),
            ),
        decreases v@.len() - p,
    {
        let ghost seen = acc@.map_values(|t: Todo| t@);
        let (rec, p1) = match record(text, v, p) {
            Some(x) => x,
            None => return None,
        };
        let ghost rv = rec@;
        acc.push(rec);
        assert(acc@.map_values(|t: Todo| t@) =~= seen.push(rv));
        match punct(v, p1, ',') {
            Some(q) => {
                p = q;
            },
            None => match punct(v, p1, ']') {
                Some(e) => return Some((acc, e)),
                None => return None,
            },
        }
    }
}

fn list(text: &str, v: &Vec<char>, i: usize) -> (r: Option<(Vec<Todo>, usize)>)
    requires
        v@ == text@,
        i <= v@.len(),
    ensures
        match r {
            Some((c, p)) => list_at(v@, i as int) == Some((c@.map_values(|t: Todo| t@), p as int))
                && p <= v@.len(),
            None => list_at(v@, i as int) is None,
        },
{
    let p = match punct(v, i, '[') {
        Some(p) => p,
        None => return None,
    };
    match punct(v, p, ']') {
        Some(e) => {
            let c: Vec<Todo> = Vec::new();
            assert(c@.map_values(|t: Todo| t@) =~= Seq::<RecordView>::empty());
            Some((c, e))
        },
        None => records(text, v, p),
    }
}

/// Reads a collection from the text of the backing document.
pub fn load(text: &str) -> (r: Result<TodoFile, crate::error::ApiError>)
    ensures
        match parse_collection(text@) {
            Some(c) => r matches Ok(f) && f@ == c,
            None => r matches Err(e) && e is Parse,
        },
{
    proof {
        reveal_strlit("todo_list");
    }
    let lkey = String::from_str("todo_list");
    assert(lkey@ =~= list_key());
    let v = chars_of(text);
    let p0 = match punct(&v, 0, '{') {
        Some(p) => p,
        None => return Err(crate::error::ApiError::Parse),
    };
    let (k, p1) = match string_tok(text, &v, p0) {
        Some(x) => x,
        None => return Err(crate::error::ApiError::Parse),
    };
    let p2 = match punct(&v, p1, ':') {
        Some(p) => p,
        None => return Err(crate::error::ApiError::Parse),
    };
    let (c, p3) = match list(text, &v, p2) {
        Some(x) => x,
        None => return Err(crate::error::ApiError::Parse),
    };
    let e = match punct(&v, p3, '}') {
        Some(p) => p,
        None => return Err(crate::error::ApiError::Parse),
    };
    if k == lkey && skip_ws_exec(&v, e) == v.len() {
        Ok(TodoFile { todo_list: c })
    } else {
        Err(crate::error::ApiError::Parse)
    }
}

impl TodoFile {
    /// The collection as the JSON document stored on disk.
    pub fn to_json_string(&self) -> (r: String)
        ensures
            r@ == encode_collection(self@),
            all_quote_back(self@),
            quotes_back(title_key()) && quotes_back(content_key()) && quotes_back(list_key()),
            parse_collection(r@) == Some(self@),
    {
        proof {
            reveal_strlit("title");
            reveal_strlit("content");
            reveal_strlit("todo_list");
            reveal_strlit("{");
            reveal_strlit("}");
            reveal_strlit(":");
            reveal_strlit(",");
            reveal_strlit(":[");
            reveal_strlit("]}");
        }
        let qt = quote("title");
        let qc = quote("content");
        let ql = quote("todo_list");
        assert("title"@ =~= title_key());
        assert("content"@ =~= content_key());
        assert("todo_list"@ =~= list_key());
        assert("{"@ =~= seq!['{']);
        assert("}"@ =~= seq!['}']);
        assert(":"@ =~= seq![':']);
        assert(","@ =~= seq![',']);
        assert(":["@ =~= seq![':', '[']);
        assert("]}"@ =~= seq![']', '}']);
        let ghost c = self@;
        let mut body = String::new();
        let mut i: usize = 0;
        while i < self.todo_list.len()
            invariant
                0 <= i <= self.todo_list@.len(),
                c == self@,
                qt@ == json_quoted(title_key()),
                qc@ == json_quoted(content_key()),
                "{"@ == seq!['{'],
                "}"@ == seq!['}'],
                ":"@ == seq![':'],
                ","@ == seq![','],
                body@ == encode_records(c.subrange(0, i as int)),
                all_quote_back(c.subrange(0, i as int)),
            decreases self.todo_list@.len() - i,
        {
            let rec = &self.todo_list[i];
            let ghost before = body@;
            assert(c[i as int] == (rec.title@, rec.content@));
            if i > 0 {
                body.append(",");
            }
            body.append("{");
            body.append(qt.as_str());
            body.append(":");
            let qtitle = quote(rec.title.as_str());
            body.append(qtitle.as_str());
            body.append(",");
            body.append(qc.as_str());
            body.append(":");
            let qcontent = quote(rec.content.as_str());
            body.append(qcontent.as_str());
            body.append("}");
            let ghost sub = c.subrange(0, i + 1);
            assert(sub.drop_last() =~= c.subrange(0, i as int));
            assert(sub.last() == c[i as int]);
            if i > 0 {
                assert(body@ =~= before + seq![','] + encode_record(c[i as int]));
            } else {
                assert(body@ =~= encode_record(c[i as int]));
            }
            i = i + 1;
            assert(all_quote_back(c.subrange(0, i as int))) by {
                assert forall|j: int| 0 <= j < i implies quotes_back(
                    #[trigger] c.subrange(0, i as int)[j].0,
                ) && quotes_back(c.subrange(0, i as int)[j].1) by {
                    if j < i - 1 {
                        assert(c.subrange(0, i as int)[j] == c.subrange(0, i - 1)[j]);
                    }
                }
            }
        }
        assert(c.subrange(0, i as int) =~= c);
        let mut out = String::new();
        out.append("{");
        out.append(ql.as_str());
        out.append(":[");
        out.append(body.as_str());
        out.append("]}");
        assert(out@ =~= encode_collection(c));
        proof {
            lemma_round_trip(c);
        }
        out
    }
}

} // verus!
