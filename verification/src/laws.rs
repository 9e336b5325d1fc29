use vstd::prelude::*;

use crate::scanner::ScanState;
use crate::scanner::class_key;
use crate::scanner::id_key;
use crate::scanner::is_sep;
use crate::scanner::is_white;
use crate::scanner::parse_result;
use crate::scanner::scan;
use crate::scanner::scan_raw;
use crate::scanner::trim_end;

verus! {

/// Idempotence of failure: an input that does not end with the closing
/// brace is never an annotation, so extraction leaves it untouched.
pub proof fn lemma_failure_without_closing_brace(s: Seq<char>)
    requires
        s.len() == 0 || s[s.len() - 1] != '}',
    ensures
        parse_result(s) is None,
{
    assert(scan_raw(s) is None);
}

/// Non-empty success invariant: a successful extraction always carries at
/// least one attribute pair; an annotation with no tokens is a failure.
pub proof fn lemma_success_nonempty(s: Seq<char>)
    ensures
        parse_result(s) matches Some((rem, attrs)) ==> attrs.len() > 0,
{
}

proof fn lemma_scan_success_shape(
    s: Seq<char>,
    i: int,
    st: ScanState,
    acc: Seq<(Seq<char>, Seq<char>)>,
)
    requires
        0 <= i <= s.len(),
    ensures
        scan(s, i, st, acc) matches Some((end, attrs)) ==> 0 <= end < i && s[end] == '{',
    decreases i,
{
    if i > 0 {
        let c = s[i - 1];
        match st {
            ScanState::Start => {
                if c == '}' {
                    lemma_scan_success_shape(s, i - 1, ScanState::Blank, acc);
                }
            },
            ScanState::Blank => {
                if c == '{' {
                } else if c == '"' {
                    lemma_scan_success_shape(
                        s,
                        i - 1,
                        ScanState::Quoted { value: Seq::empty() },
                        acc,
                    );
                } else if is_sep(c) {
                    lemma_scan_success_shape(s, i - 1, ScanState::Blank, acc);
                } else {
                    lemma_scan_success_shape(s, i - 1, ScanState::Unquoted { value: seq![c] }, acc);
                }
            },
            ScanState::Quoted { value } => {
                if c == '"' {
                    lemma_scan_success_shape(s, i - 1, ScanState::Equal { value }, acc);
                } else {
                    lemma_scan_success_shape(
                        s,
                        i - 1,
                        ScanState::Quoted { value: value.insert(0, c) },
                        acc,
                    );
                }
            },
            ScanState::Equal { value } => {
                if c == '\\' {
                    lemma_scan_success_shape(
                        s,
                        i - 1,
                        ScanState::Quoted { value: value.insert(0, '"') },
                        acc,
                    );
                } else if c == '=' {
                    lemma_scan_success_shape(
                        s,
                        i - 1,
                        ScanState::Key { key: Seq::empty(), value },
                        acc,
                    );
                }
            },
            ScanState::Unquoted { value } => {
                if c == '{' {
                } else if c == '#' {
                    lemma_scan_success_shape(
                        s,
                        i - 1,
                        ScanState::Blank,
                        acc.insert(0, (id_key(), value)),
                    );
                } else if c == '.' {
                    lemma_scan_success_shape(
                        s,
                        i - 1,
                        ScanState::Blank,
                        acc.insert(0, (class_key(), value)),
                    );
                } else if c == '=' {
                    lemma_scan_success_shape(
                        s,
                        i - 1,
                        ScanState::Key { key: Seq::empty(), value },
                        acc,
                    );
                } else if is_sep(c) {
                } else {
                    lemma_scan_success_shape(
                        s,
                        i - 1,
                        ScanState::Unquoted { value: value.insert(0, c) },
                        acc,
                    );
                }
            },
            ScanState::Key { key, value } => {
                if c == '{' {
                } else if is_sep(c) {
                    lemma_scan_success_shape(s, i - 1, ScanState::Blank, acc.insert(0, (key, value)));
                } else {
                    lemma_scan_success_shape(
                        s,
                        i - 1,
                        ScanState::Key { key: key.insert(0, c), value },
                        acc,
                    );
                }
            },
        }
    }
}

proof fn lemma_trim_end_prefix(s: Seq<char>)
    ensures
        trim_end(s).len() <= s.len(),
        trim_end(s) == s.take(trim_end(s).len() as int),
        forall|j: int| trim_end(s).len() <= j < s.len() ==> is_white(s[j]),
    decreases s.len(),
{
    if s.len() > 0 && is_white(s.last()) {
        let d = s.drop_last();
        lemma_trim_end_prefix(d);
        assert(trim_end(s) == trim_end(d));
        let m = trim_end(s).len() as int;
        assert(d.take(m) =~= s.take(m));
        assert forall|j: int| m <= j < s.len() implies is_white(s[j]) by {
            if j < s.len() - 1 {
                assert(is_white(d[j]));
            }
        }
    }
}

/// Round trip on success: the input is exactly the remainder, then the
/// whitespace that was trimmed away, then the matched annotation, which
/// itself runs from the opening brace to the final closing brace.
pub proof fn lemma_round_trip(s: Seq<char>, rem: Seq<char>, attrs: Seq<(Seq<char>, Seq<char>)>)
    requires
        parse_result(s) == Some((rem, attrs)),
    ensures
        exists|end: int|
            {
                &&& 0 <= end < s.len()
                &&& rem.len() <= end
                &&& rem == s.take(rem.len() as int)
                &&& (forall|j: int| rem.len() <= j < end ==> is_white(s[j]))
                &&& s[end] == '{'
                &&& s[s.len() - 1] == '}'
                &&& s == rem + s.subrange(rem.len() as int, end) + s.subrange(end, s.len() as int)
            },
{
    let end = scan_raw(s)->Some_0.0;
    assert(s.len() > 0);
    assert(s[s.len() - 1] == '}');
    lemma_scan_success_shape(s, s.len() as int, ScanState::Start, Seq::empty());
    assert(0 <= end < s.len() && s[end] == '{');
    let p = s.take(end);
    lemma_trim_end_prefix(p);
    assert(rem == trim_end(p));
    let m = rem.len() as int;
    assert(p.take(m) =~= s.take(m));
    assert forall|j: int| m <= j < end implies is_white(s[j]) by {
        assert(is_white(p[j]));
    }
    assert(s =~= rem + s.subrange(m, end) + s.subrange(end, s.len() as int));
    assert({
        &&& 0 <= end < s.len()
        &&& rem.len() <= end
        &&& rem == s.take(rem.len() as int)
        &&& (forall|j: int| rem.len() <= j < end ==> is_white(s[j]))
        &&& s[end] == '{'
        &&& s[s.len() - 1] == '}'
        &&& s == rem + s.subrange(rem.len() as int, end) + s.subrange(end, s.len() as int)
    });
}

proof fn lemma_scan_frame(s: Seq<char>, i: int, st: ScanState, acc: Seq<(Seq<char>, Seq<char>)>)
    requires
        0 <= i,
    ensures
        scan(s, i, st, acc) == match scan(s, i, st, Seq::<(Seq<char>, Seq<char>)>::empty()) {
            Some((end, found)) => Some((end, found + acc)),
            None => None,
        },
    decreases i, 0int,
{
    let empty = Seq::<(Seq<char>, Seq<char>)>::empty();
    if i > 0 {
        let c = s[i - 1];
        match st {
            ScanState::Start => {
                if c == '}' {
                    lemma_scan_frame(s, i - 1, ScanState::Blank, acc);
                }
            },
            ScanState::Blank => {
                if c == '{' {
                    assert(empty + acc =~= acc);
                } else if c == '"' {
                    lemma_scan_frame(s, i - 1, ScanState::Quoted { value: Seq::empty() }, acc);
                } else if is_sep(c) {
                    lemma_scan_frame(s, i - 1, ScanState::Blank, acc);
                } else {
                    lemma_scan_frame(s, i - 1, ScanState::Unquoted { value: seq![c] }, acc);
                }
            },
            ScanState::Quoted { value } => {
                if c == '"' {
                    lemma_scan_frame(s, i - 1, ScanState::Equal { value }, acc);
                } else {
                    lemma_scan_frame(s, i - 1, ScanState::Quoted { value: value.insert(0, c) }, acc);
                }
            },
            ScanState::Equal { value } => {
                if c == '\\' {
                    lemma_scan_frame(s, i - 1, ScanState::Quoted { value: value.insert(0, '"') }, acc);
                } else if c == '=' {
                    lemma_scan_frame(s, i - 1, ScanState::Key { key: Seq::empty(), value }, acc);
                }
            },
            ScanState::Unquoted { value } => {
                if c == '{' {
                } else if c == '#' {
                    lemma_frame_emit(s, i - 1, acc, (id_key(), value));
                } else if c == '.' {
                    lemma_frame_emit(s, i - 1, acc, (class_key(), value));
                } else if c == '=' {
                    lemma_scan_frame(s, i - 1, ScanState::Key { key: Seq::empty(), value }, acc);
                } else if is_sep(c) {
                } else {
                    lemma_scan_frame(s, i - 1, ScanState::Unquoted { value: value.insert(0, c) }, acc);
                }
            },
            ScanState::Key { key, value } => {
                if c == '{' {
                    assert(acc.insert(0, (key, value)) =~= empty.insert(0, (key, value)) + acc);
                } else if is_sep(c) {
                    lemma_frame_emit(s, i - 1, acc, (key, value));
                } else {
                    lemma_scan_frame(s, i - 1, ScanState::Key { key: key.insert(0, c), value }, acc);
                }
            },
        }
    }
}

proof fn lemma_frame_emit(
    s: Seq<char>,
    i: int,
    acc: Seq<(Seq<char>, Seq<char>)>,
    p: (Seq<char>, Seq<char>),
)
    requires
        0 <= i,
    ensures
        scan(s, i, ScanState::Blank, acc.insert(0, p)) == match scan(
            s,
            i,
            ScanState::Blank,
            Seq::<(Seq<char>, Seq<char>)>::empty().insert(0, p),
        ) {
            Some((end, found)) => Some((end, found + acc)),
            None => None,
        },
    decreases i, 1int,
{
    let empty = Seq::<(Seq<char>, Seq<char>)>::empty();
    lemma_scan_frame(s, i, ScanState::Blank, acc.insert(0, p));
    lemma_scan_frame(s, i, ScanState::Blank, empty.insert(0, p));
    let a = scan(s, i, ScanState::Blank, empty);
    if a is Some {
        let found = a->Some_0.1;
        assert(found + acc.insert(0, p) =~= (found + empty.insert(0, p)) + acc);
    }
}

/// Order preservation: whatever pairs were already collected from the
/// tokens to the right of the scan position, the pairs of the remaining
/// annotation text are placed in front of them, leaving their contents and
/// their relative order unchanged. Discovering tokens right to left and
/// prepending each pair therefore yields the left-to-right source order.
pub proof fn lemma_order_preservation(
    s: Seq<char>,
    i: int,
    st: ScanState,
    acc: Seq<(Seq<char>, Seq<char>)>,
    end: int,
    attrs: Seq<(Seq<char>, Seq<char>)>,
)
    requires
        0 <= i,
        scan(s, i, st, acc) == Some((end, attrs)),
    ensures
        scan(s, i, st, Seq::<(Seq<char>, Seq<char>)>::empty()) matches Some((e2, found))
            && e2 == end && attrs == found + acc,
{
    lemma_scan_frame(s, i, st, acc);
}

/// The value denoted by the raw text between the quotes of a quoted value:
/// each backslash-quote pair stands for one literal quote character, and
/// every other character stands for itself.
pub open spec fn unescape(raw: Seq<char>) -> Seq<char>
    decreases raw.len(),
{
    if raw.len() == 0 {
        Seq::empty()
    } else if raw.last() == '"' && raw.len() >= 2 && raw[raw.len() - 2] == '\\' {
        unescape(raw.drop_last().drop_last()).push('"')
    } else {
        unescape(raw.drop_last()).push(raw.last())
    }
}

proof fn lemma_quoted_run(
    s: Seq<char>,
    i: int,
    lo: int,
    v: Seq<char>,
    acc: Seq<(Seq<char>, Seq<char>)>,
)
    requires
        0 <= lo <= i <= s.len(),
        forall|k: int| lo <= k < i && #[trigger] s[k] == '"' ==> k > lo && s[k - 1] == '\\',
    ensures
        scan(s, i, ScanState::Quoted { value: v }, acc) == scan(
            s,
            lo,
            ScanState::Quoted { value: unescape(s.subrange(lo, i)) + v },
            acc,
        ),
    decreases i - lo,
{
    let raw = s.subrange(lo, i);
    if i == lo {
        assert(unescape(raw) + v =~= v);
    } else {
        let c = s[i - 1];
        assert(raw.last() == c);
        if c == '"' {
            assert(lo <= i - 1 < i && s[i - 1] == '"');
            assert(i - 1 > lo && s[i - 2] == '\\');
            assert(scan(s, i, ScanState::Quoted { value: v }, acc) == scan(
                s,
                i - 1,
                ScanState::Equal { value: v },
                acc,
            ));
            assert(scan(s, i - 1, ScanState::Equal { value: v }, acc) == scan(
                s,
                i - 2,
                ScanState::Quoted { value: v.insert(0, '"') },
                acc,
            ));
            lemma_quoted_run(s, i - 2, lo, v.insert(0, '"'), acc);
            assert(raw[raw.len() - 2] == s[i - 2]);
            assert(raw.drop_last().drop_last() =~= s.subrange(lo, i - 2));
            assert(unescape(s.subrange(lo, i - 2)) + v.insert(0, '"') =~= unescape(raw) + v);
        } else {
            lemma_quoted_run(s, i - 1, lo, v.insert(0, c), acc);
            assert(raw.drop_last() =~= s.subrange(lo, i - 1));
            assert(unescape(s.subrange(lo, i - 1)) + v.insert(0, c) =~= unescape(raw) + v);
        }
    }
}

proof fn lemma_key_run(
    s: Seq<char>,
    i: int,
    lo: int,
    k: Seq<char>,
    v: Seq<char>,
    acc: Seq<(Seq<char>, Seq<char>)>,
)
    requires
        0 <= lo <= i <= s.len(),
        forall|j: int| lo <= j < i ==> #[trigger] s[j] != '{' && !is_sep(s[j]),
    ensures
        scan(s, i, ScanState::Key { key: k, value: v }, acc) == scan(
            s,
            lo,
            ScanState::Key { key: s.subrange(lo, i) + k, value: v },
            acc,
        ),
    decreases i - lo,
{
    if i == lo {
        assert(s.subrange(lo, i) + k =~= k);
    } else {
        let c = s[i - 1];
        assert(c != '{' && !is_sep(c));
        lemma_key_run(s, i - 1, lo, k.insert(0, c), v, acc);
        assert(s.subrange(lo, i - 1) + k.insert(0, c) =~= s.subrange(lo, i) + k);
    }
}

/// Escape correctness: in a quoted value each backslash-quote pair yields a
/// literal quote with the backslash removed, and every other quoted
/// character, whitespace included, is preserved verbatim. An input that is
/// exactly one `key="…"` annotation extracts the unescaped value.
pub proof fn lemma_escape_correctness(key: Seq<char>, raw: Seq<char>)
    requires
        forall|j: int| 0 <= j < key.len() ==> #[trigger] key[j] != '{' && !is_sep(key[j]),
        forall|k: int| 0 <= k < raw.len() && #[trigger] raw[k] == '"' ==> k > 0 && raw[k - 1]
            == '\\',
    ensures
        parse_result(seq!['{'] + key + seq!['='] + seq!['"'] + raw + seq!['"'] + seq!['}'])
            == Some((Seq::<char>::empty(), seq![(key, unescape(raw))])),
{
    let s = seq!['{'] + key + seq!['='] + seq!['"'] + raw + seq!['"'] + seq!['}'];
    let kl = key.len() as int;
    let rl = raw.len() as int;
    let e0 = Seq::<(Seq<char>, Seq<char>)>::empty();
    let u = unescape(raw);
    assert(s.len() == 5 + kl + rl);
    assert(s[0] == '{');
    assert forall|j: int| 0 <= j < kl implies s[1 + j] == key[j] by {}
    assert(s[1 + kl] == '=');
    assert(s[2 + kl] == '"');
    assert forall|k: int| 0 <= k < rl implies s[3 + kl + k] == raw[k] by {}
    assert(s[3 + kl + rl] == '"');
    assert(s[4 + kl + rl] == '}');
    assert(scan(s, 5 + kl + rl, ScanState::Start, e0) == scan(s, 4 + kl + rl, ScanState::Blank, e0));
    assert(scan(s, 4 + kl + rl, ScanState::Blank, e0) == scan(
        s,
        3 + kl + rl,
        ScanState::Quoted { value: Seq::empty() },
        e0,
    ));
    assert forall|j: int| 3 + kl <= j < 3 + kl + rl && #[trigger] s[j] == '"' implies j > 3 + kl
        && s[j - 1] == '\\' by {
        let k = j - (3 + kl);
        assert(s[j] == raw[k]);
        assert(k > 0 && raw[k - 1] == '\\');
        assert(s[j - 1] == raw[k - 1]);
    }
    lemma_quoted_run(s, 3 + kl + rl, 3 + kl, Seq::empty(), e0);
    assert(s.subrange(3 + kl, 3 + kl + rl) =~= raw);
    assert(u + Seq::<char>::empty() =~= u);
    assert(scan(s, 3 + kl + rl, ScanState::Quoted { value: Seq::empty() }, e0) == scan(
        s,
        3 + kl,
        ScanState::Quoted { value: u },
        e0,
    ));
    assert(scan(s, 3 + kl, ScanState::Quoted { value: u }, e0) == scan(
        s,
        2 + kl,
        ScanState::Equal { value: u },
        e0,
    ));
    assert(scan(s, 2 + kl, ScanState::Equal { value: u }, e0) == scan(
        s,
        1 + kl,
        ScanState::Key { key: Seq::empty(), value: u },
        e0,
    ));
    assert forall|j: int| 1 <= j < 1 + kl implies s[j] != '{' && !is_sep(s[j]) by {
        assert(s[j] == key[j - 1]);
    }
    lemma_key_run(s, 1 + kl, 1, Seq::empty(), u, e0);
    assert(s.subrange(1, 1 + kl) =~= key);
    assert(key + Seq::<char>::empty() =~= key);
    assert(scan(s, 1 + kl, ScanState::Key { key: Seq::empty(), value: u }, e0) == scan(
        s,
        1,
        ScanState::Key { key, value: u },
        e0,
    ));
    assert(scan(s, 1, ScanState::Key { key, value: u }, e0) == Some(
        (0int, e0.insert(0, (key, u))),
    ));
    assert(e0.insert(0, (key, u)) =~= seq![(key, u)]);
    assert(s.take(0) =~= Seq::<char>::empty());
}

/// A character that may stand inside an unquoted name or value: anything
/// but the markers that end or classify an unquoted token.
pub open spec fn unquoted_safe(c: char) -> bool {
    c != '{' && c != '#' && c != '.' && c != '=' && !is_sep(c)
}

/// A character that may stand inside a key: anything but the opening brace
/// and the separators, which end the key.
pub open spec fn key_safe(c: char) -> bool {
    c != '{' && !is_sep(c)
}

proof fn lemma_unquoted_run(
    s: Seq<char>,
    i: int,
    lo: int,
    v: Seq<char>,
    acc: Seq<(Seq<char>, Seq<char>)>,
)
    requires
        0 <= lo <= i <= s.len(),
        forall|j: int| lo <= j < i ==> unquoted_safe(#[trigger] s[j]),
    ensures
        scan(s, i, ScanState::Unquoted { value: v }, acc) == scan(
            s,
            lo,
            ScanState::Unquoted { value: s.subrange(lo, i) + v },
            acc,
        ),
    decreases i - lo,
{
    if i == lo {
        assert(s.subrange(lo, i) + v =~= v);
    } else {
        let c = s[i - 1];
        assert(unquoted_safe(c));
        lemma_unquoted_run(s, i - 1, lo, v.insert(0, c), acc);
        assert(s.subrange(lo, i - 1) + v.insert(0, c) =~= s.subrange(lo, i) + v);
    }
}

/// One token inside the braces, as an author writes it.
pub enum Token {
    Id { name: Seq<char> },
    Class { name: Seq<char> },
    KeyVal { key: Seq<char>, value: Seq<char> },
    QuotedKeyVal { key: Seq<char>, raw: Seq<char> },
}

/// The source text of one token.
pub open spec fn token_text(t: Token) -> Seq<char> {
    match t {
        Token::Id { name } => seq!['#'] + name,
        Token::Class { name } => seq!['.'] + name,
        Token::KeyVal { key, value } => key + seq!['='] + value,
        Token::QuotedKeyVal { key, raw } => key + seq!['='] + seq!['"'] + raw + seq!['"'],
    }
}

/// The attribute pair a token denotes.
pub open spec fn token_pair(t: Token) -> (Seq<char>, Seq<char>) {
    match t {
        Token::Id { name } => (id_key(), name),
        Token::Class { name } => (class_key(), name),
        Token::KeyVal { key, value } => (key, value),
        Token::QuotedKeyVal { key, raw } => (key, unescape(raw)),
    }
}

/// A well-formed token: names and unquoted values are non-empty and free of
/// marker characters, keys are free of braces and separators, and every
/// quote inside a quoted value is escaped.
pub open spec fn token_wf(t: Token) -> bool {
    match t {
        Token::Id { name } => name.len() > 0 && name.last() != '"' && forall|j: int|
            0 <= j < name.len() ==> unquoted_safe(#[trigger] name[j]),
        Token::Class { name } => name.len() > 0 && name.last() != '"' && forall|j: int|
            0 <= j < name.len() ==> unquoted_safe(#[trigger] name[j]),
        Token::KeyVal { key, value } => value.len() > 0 && value.last() != '"' && (forall|j: int|
            0 <= j < value.len() ==> unquoted_safe(#[trigger] value[j])) && (forall|j: int|
            0 <= j < key.len() ==> key_safe(#[trigger] key[j])),
        Token::QuotedKeyVal { key, raw } => (forall|j: int|
            0 <= j < key.len() ==> key_safe(#[trigger] key[j])) && (forall|k: int|
            0 <= k < raw.len() && #[trigger] raw[k] == '"' ==> k > 0 && raw[k - 1] == '\\'),
    }
}

/// The source text of a token sequence, tokens separated by single spaces.
pub open spec fn tokens_text(ts: Seq<Token>) -> Seq<char>
    decreases ts.len(),
{
    if ts.len() == 0 {
        Seq::empty()
    } else if ts.len() == 1 {
        token_text(ts[0])
    } else {
        tokens_text(ts.drop_last()) + seq![' '] + token_text(ts.last())
    }
}

/// The attribute pairs of a token sequence, in the tokens' order.
pub open spec fn tokens_pairs(ts: Seq<Token>) -> Seq<(Seq<char>, Seq<char>)> {
    ts.map_values(|t: Token| token_pair(t))
}

proof fn lemma_token_run(
    s: Seq<char>,
    i: int,
    m: int,
    t: Token,
    acc: Seq<(Seq<char>, Seq<char>)>,
)
    requires
        0 <= m <= i <= s.len(),
        s.subrange(m, i) == token_text(t),
        token_wf(t),
    ensures
        match t {
            Token::Id { name } => scan(s, i, ScanState::Blank, acc) == scan(
                s,
                m,
                ScanState::Blank,
                acc.insert(0, (id_key(), name)),
            ),
            Token::Class { name } => scan(s, i, ScanState::Blank, acc) == scan(
                s,
                m,
                ScanState::Blank,
                acc.insert(0, (class_key(), name)),
            ),
            Token::KeyVal { key, value } => scan(s, i, ScanState::Blank, acc) == scan(
                s,
                m,
                ScanState::Key { key, value },
                acc,
            ),
            Token::QuotedKeyVal { key, raw } => scan(s, i, ScanState::Blank, acc) == scan(
                s,
                m,
                ScanState::Key { key, value: unescape(raw) },
                acc,
            ),
        },
{
    let text = s.subrange(m, i);
    match t {
        Token::Id { name } => {
            let nl = name.len() as int;
            assert(token_text(t) == seq!['#'] + name);
            assert(text.len() == i - m);
            assert(i - m == 1 + nl);
            assert(s[m] == text[0] && text[0] == '#');
            assert forall|j: int| 0 <= j < nl implies s[m + 1 + j] == name[j] by {
                assert(text[1 + j] == name[j]);
            }
            let c = s[i - 1];
            assert(c == name[nl - 1]);
            assert(unquoted_safe(c) && c != '"');
            assert(scan(s, i, ScanState::Blank, acc) == scan(
                s,
                i - 1,
                ScanState::Unquoted { value: seq![c] },
                acc,
            ));
            assert forall|j: int| m + 1 <= j < i - 1 implies unquoted_safe(#[trigger] s[j]) by {
                assert(s[j] == name[j - m - 1]);
            }
            lemma_unquoted_run(s, i - 1, m + 1, seq![c], acc);
            assert(s.subrange(m + 1, i - 1) + seq![c] =~= name);
            assert(scan(s, m + 1, ScanState::Unquoted { value: name }, acc) == scan(
                s,
                m,
                ScanState::Blank,
                acc.insert(0, (id_key(), name)),
            ));
        },
        Token::Class { name } => {
            let nl = name.len() as int;
            assert(token_text(t) == seq!['.'] + name);
            assert(text.len() == i - m);
            assert(i - m == 1 + nl);
            assert(s[m] == text[0] && text[0] == '.');
            assert forall|j: int| 0 <= j < nl implies s[m + 1 + j] == name[j] by {
                assert(text[1 + j] == name[j]);
            }
            let c = s[i - 1];
            assert(c == name[nl - 1]);
            assert(unquoted_safe(c) && c != '"');
            assert(scan(s, i, ScanState::Blank, acc) == scan(
                s,
                i - 1,
                ScanState::Unquoted { value: seq![c] },
                acc,
            ));
            assert forall|j: int| m + 1 <= j < i - 1 implies unquoted_safe(#[trigger] s[j]) by {
                assert(s[j] == name[j - m - 1]);
            }
            lemma_unquoted_run(s, i - 1, m + 1, seq![c], acc);
            assert(s.subrange(m + 1, i - 1) + seq![c] =~= name);
            assert(scan(s, m + 1, ScanState::Unquoted { value: name }, acc) == scan(
                s,
                m,
                ScanState::Blank,
                acc.insert(0, (class_key(), name)),
            ));
        },
        Token::KeyVal { key, value } => {
            let kl = key.len() as int;
            let vl = value.len() as int;
            assert(token_text(t) == key + seq!['='] + value);
            assert(text.len() == i - m);
            assert(i - m == kl + 1 + vl);
            assert forall|j: int| 0 <= j < kl implies s[m + j] == key[j] by {
                assert(text[j] == key[j]);
            }
            assert(s[m + kl] == text[kl] && text[kl] == '=');
            assert forall|j: int| 0 <= j < vl implies s[m + kl + 1 + j] == value[j] by {
                assert(text[kl + 1 + j] == value[j]);
            }
            let c = s[i - 1];
            assert(c == value[vl - 1]);
            assert(unquoted_safe(c) && c != '"');
            assert(scan(s, i, ScanState::Blank, acc) == scan(
                s,
                i - 1,
                ScanState::Unquoted { value: seq![c] },
                acc,
            ));
            assert forall|j: int| m + kl + 1 <= j < i - 1 implies unquoted_safe(
                #[trigger] s[j],
            ) by {
                assert(s[j] == value[j - m - kl - 1]);
            }
            lemma_unquoted_run(s, i - 1, m + kl + 1, seq![c], acc);
            assert(s.subrange(m + kl + 1, i - 1) + seq![c] =~= value);
            assert(scan(s, m + kl + 1, ScanState::Unquoted { value }, acc) == scan(
                s,
                m + kl,
                ScanState::Key { key: Seq::empty(), value },
                acc,
            ));
            assert forall|j: int| m <= j < m + kl implies key_safe(#[trigger] s[j]) by {
                assert(s[j] == key[j - m]);
            }
            assert forall|j: int| m <= j < m + kl implies #[trigger] s[j] != '{' && !is_sep(
                s[j],
            ) by {
                assert(key_safe(s[j]));
            }
            lemma_key_run(s, m + kl, m, Seq::empty(), value, acc);
            assert(s.subrange(m, m + kl) + Seq::<char>::empty() =~= key);
        },
        Token::QuotedKeyVal { key, raw } => {
            let kl = key.len() as int;
            let rl = raw.len() as int;
            assert(token_text(t) == key + seq!['='] + seq!['"'] + raw + seq!['"']);
            assert(text.len() == i - m);
            assert(i - m == kl + 3 + rl);
            assert forall|j: int| 0 <= j < kl implies s[m + j] == key[j] by {
                assert(text[j] == key[j]);
            }
            assert(s[m + kl] == text[kl] && text[kl] == '=');
            assert(s[m + kl + 1] == text[kl + 1] && text[kl + 1] == '"');
            assert forall|j: int| 0 <= j < rl implies s[m + kl + 2 + j] == raw[j] by {
                assert(text[kl + 2 + j] == raw[j]);
            }
            assert(s[i - 1] == text[kl + 2 + rl] && text[kl + 2 + rl] == '"');
            assert(scan(s, i, ScanState::Blank, acc) == scan(
                s,
                i - 1,
                ScanState::Quoted { value: Seq::empty() },
                acc,
            ));
            assert forall|j: int| m + kl + 2 <= j < i - 1 && #[trigger] s[j] == '"' implies j > m
                + kl + 2 && s[j - 1] == '\\' by {
                let k = j - (m + kl + 2);
                assert(s[j] == raw[k]);
                assert(k > 0 && raw[k - 1] == '\\');
                assert(s[j - 1] == raw[k - 1]);
            }
            lemma_quoted_run(s, i - 1, m + kl + 2, Seq::empty(), acc);
            let u = unescape(raw);
            assert(s.subrange(m + kl + 2, i - 1) =~= raw);
            assert(u + Seq::<char>::empty() =~= u);
            assert(scan(s, m + kl + 2, ScanState::Quoted { value: u }, acc) == scan(
                s,
                m + kl + 1,
                ScanState::Equal { value: u },
                acc,
            ));
            assert(scan(s, m + kl + 1, ScanState::Equal { value: u }, acc) == scan(
                s,
                m + kl,
                ScanState::Key { key: Seq::empty(), value: u },
                acc,
            ));
            assert forall|j: int| m <= j < m + kl implies #[trigger] s[j] != '{' && !is_sep(
                s[j],
            ) by {
                assert(s[j] == key[j - m]);
                assert(key_safe(s[j]));
            }
            lemma_key_run(s, m + kl, m, Seq::empty(), u, acc);
            assert(s.subrange(m, m + kl) + Seq::<char>::empty() =~= key);
        },
    }
}

proof fn lemma_annotation_run(
    s: Seq<char>,
    ts: Seq<Token>,
    lo: int,
    i: int,
    acc: Seq<(Seq<char>, Seq<char>)>,
)
    requires
        1 <= lo <= i <= s.len(),
        s[lo - 1] == '{',
        s.subrange(lo, i) == tokens_text(ts),
        ts.len() >= 1,
        forall|j: int| 0 <= j < ts.len() ==> token_wf(#[trigger] ts[j]),
    ensures
        scan(s, i, ScanState::Blank, acc) == Some((lo - 1, tokens_pairs(ts) + acc)),
    decreases ts.len(),
{
    let t = ts.last();
    assert(token_wf(t));
    let tl = token_text(t).len() as int;
    if ts.len() == 1 {
        let m = lo;
        assert(tokens_text(ts) == token_text(ts[0]));
        assert(ts[0] == t);
        assert(i - m == tl);
        lemma_token_run(s, i, m, t, acc);
        match t {
            Token::Id { name } => {
                let acc1 = acc.insert(0, (id_key(), name));
                assert(scan(s, m, ScanState::Blank, acc1) == Some((lo - 1, acc1)));
                assert(tokens_pairs(ts) + acc =~= acc1);
            },
            Token::Class { name } => {
                let acc1 = acc.insert(0, (class_key(), name));
                assert(scan(s, m, ScanState::Blank, acc1) == Some((lo - 1, acc1)));
                assert(tokens_pairs(ts) + acc =~= acc1);
            },
            Token::KeyVal { key, value } => {
                let acc1 = acc.insert(0, (key, value));
                assert(scan(s, m, ScanState::Key { key, value }, acc) == Some((lo - 1, acc1)));
                assert(tokens_pairs(ts) + acc =~= acc1);
            },
            Token::QuotedKeyVal { key, raw } => {
                let acc1 = acc.insert(0, (key, unescape(raw)));
                assert(scan(s, m, ScanState::Key { key, value: unescape(raw) }, acc) == Some(
                    (lo - 1, acc1),
                ));
                assert(tokens_pairs(ts) + acc =~= acc1);
            },
        }
    } else {
        let rest = ts.drop_last();
        assert(tokens_text(ts) == tokens_text(rest) + seq![' '] + token_text(t));
        let whole = tokens_text(rest) + seq![' '] + token_text(t);
        let rtl = tokens_text(rest).len() as int;
        assert(i - lo == rtl + 1 + tl);
        let m = i - tl;
        assert forall|j: int| lo <= j < i implies s[j] == whole[j - lo] by {
            assert(s.subrange(lo, i)[j - lo] == s[j]);
        }
        assert(s.subrange(m, i) =~= token_text(t)) by {
            assert forall|j: int| 0 <= j < tl implies s.subrange(m, i)[j] == token_text(t)[j] by {
                assert(s[m + j] == whole[m + j - lo]);
                assert(whole[rtl + 1 + j] == token_text(t)[j]);
            }
        }
        assert(s[m - 1] == whole[rtl]);
        assert(s[m - 1] == ' ');
        assert(s.subrange(lo, m - 1) =~= tokens_text(rest)) by {
            assert forall|j: int| 0 <= j < rtl implies s.subrange(lo, m - 1)[j] == tokens_text(
                rest,
            )[j] by {
                assert(s[lo + j] == whole[j]);
            }
        }
        lemma_token_run(s, i, m, t, acc);
        assert(is_sep(' ') && ' ' != '{');
        match t {
            Token::Id { name } => {
                let acc1 = acc.insert(0, (id_key(), name));
                assert(scan(s, m, ScanState::Blank, acc1) == scan(s, m - 1, ScanState::Blank, acc1));
                lemma_annotation_run(s, rest, lo, m - 1, acc1);
                assert(tokens_pairs(ts) + acc =~= tokens_pairs(rest) + acc1);
            },
            Token::Class { name } => {
                let acc1 = acc.insert(0, (class_key(), name));
                assert(scan(s, m, ScanState::Blank, acc1) == scan(s, m - 1, ScanState::Blank, acc1));
                lemma_annotation_run(s, rest, lo, m - 1, acc1);
                assert(tokens_pairs(ts) + acc =~= tokens_pairs(rest) + acc1);
            },
            Token::KeyVal { key, value } => {
                let acc1 = acc.insert(0, (key, value));
                assert(scan(s, m, ScanState::Key { key, value }, acc) == scan(
                    s,
                    m - 1,
                    ScanState::Blank,
                    acc1,
                ));
                lemma_annotation_run(s, rest, lo, m - 1, acc1);
                assert(tokens_pairs(ts) + acc =~= tokens_pairs(rest) + acc1);
            },
            Token::QuotedKeyVal { key, raw } => {
                let acc1 = acc.insert(0, (key, unescape(raw)));
                assert(scan(s, m, ScanState::Key { key, value: unescape(raw) }, acc) == scan(
                    s,
                    m - 1,
                    ScanState::Blank,
                    acc1,
                ));
                lemma_annotation_run(s, rest, lo, m - 1, acc1);
                assert(tokens_pairs(ts) + acc =~= tokens_pairs(rest) + acc1);
            },
        }
    }
}

/// Order preservation over whole inputs: an annotation written as any
/// non-empty sequence of well-formed tokens parses successfully, and the
/// extracted pairs are exactly the tokens' pairs, in the order in which the
/// tokens stand in the source, although the text is scanned right to left.
pub proof fn lemma_order_of_tokens(ts: Seq<Token>)
    requires
        ts.len() >= 1,
        forall|j: int| 0 <= j < ts.len() ==> token_wf(#[trigger] ts[j]),
    ensures
        parse_result(seq!['{'] + tokens_text(ts) + seq!['}']) == Some(
            (Seq::<char>::empty(), tokens_pairs(ts)),
        ),
{
    let s = seq!['{'] + tokens_text(ts) + seq!['}'];
    let e0 = Seq::<(Seq<char>, Seq<char>)>::empty();
    let tl = tokens_text(ts).len() as int;
    assert(s.len() == tl + 2);
    assert(s[0] == '{');
    assert(s[tl + 1] == '}');
    assert(scan(s, tl + 2, ScanState::Start, e0) == scan(s, tl + 1, ScanState::Blank, e0));
    assert(s.subrange(1, tl + 1) =~= tokens_text(ts));
    lemma_annotation_run(s, ts, 1, tl + 1, e0);
    assert(tokens_pairs(ts) + e0 =~= tokens_pairs(ts));
    assert(tokens_pairs(ts).len() == ts.len());
    assert(s.take(0) =~= Seq::<char>::empty());
}

} // verus!
