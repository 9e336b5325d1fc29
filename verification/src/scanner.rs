use vstd::prelude::*;

verus! {

/// A state of the backward scan, carrying the partially rebuilt key and
/// value buffers where the state needs them.
pub enum ScanState {
    Start,
    Blank,
    Quoted { value: Seq<char> },
    Equal { value: Seq<char> },
    Unquoted { value: Seq<char> },
    Key { key: Seq<char>, value: Seq<char> },
}

/// The separator characters recognised between tokens: ASCII whitespace.
pub open spec fn is_sep(c: char) -> bool {
    c == ' ' || c == '\t' || c == '\n' || c == '\u{c}' || c == '\r'
}

/// Unicode whitespace, as trimmed from the end of the remainder.
pub open spec fn is_white(c: char) -> bool {
    ||| c == ' '
    ||| ('\u{9}' <= c && c <= '\u{d}')
    ||| c == '\u{85}'
    ||| c == '\u{a0}'
    ||| c == '\u{1680}'
    ||| ('\u{2000}' <= c && c <= '\u{200a}')
    ||| c == '\u{2028}'
    ||| c == '\u{2029}'
    ||| c == '\u{202f}'
    ||| c == '\u{205f}'
    ||| c == '\u{3000}'
}

/// The spec-level key literal contributed by a `#name` token.
pub open spec fn id_key() -> Seq<char> {
    seq!['i', 'd']
}

/// The spec-level key literal contributed by a `.name` token.
pub open spec fn class_key() -> Seq<char> {
    seq!['c', 'l', 'a', 's', 's']
}

/// One backward pass over `s`, about to read the character at `i - 1`
/// (or the start of the input when `i == 0`). `acc` holds the pairs already
/// found to the right, in source order. Returns the index of the opening
/// brace and the pairs, or `None` when the suffix is not an annotation.
pub open spec fn scan(
    s: Seq<char>,
    i: int,
    st: ScanState,
    acc: Seq<(Seq<char>, Seq<char>)>,
) -> Option<(int, Seq<(Seq<char>, Seq<char>)>)>
    decreases i,
{
    if i <= 0 {
        None
    } else {
        let c = s[i - 1];
        match st {
            ScanState::Start => {
                if c == '}' {
                    scan(s, i - 1, ScanState::Blank, acc)
                } else {
                    None
                }
            },
            ScanState::Blank => {
                if c == '{' {
                    Some((i - 1, acc))
                } else if c == '"' {
                    scan(s, i - 1, ScanState::Quoted { value: Seq::empty() }, acc)
                } else if is_sep(c) {
                    scan(s, i - 1, ScanState::Blank, acc)
                } else {
                    scan(s, i - 1, ScanState::Unquoted { value: seq![c] }, acc)
                }
            },
            ScanState::Quoted { value } => {
                if c == '"' {
                    scan(s, i - 1, ScanState::Equal { value }, acc)
                } else {
                    scan(s, i - 1, ScanState::Quoted { value: value.insert(0, c) }, acc)
                }
            },
            ScanState::Equal { value } => {
                if c == '\\' {
                    scan(s, i - 1, ScanState::Quoted { value: value.insert(0, '"') }, acc)
                } else if c == '=' {
                    scan(s, i - 1, ScanState::Key { key: Seq::empty(), value }, acc)
                } else {
                    None
                }
            },
            ScanState::Unquoted { value } => {
                if c == '{' {
                    None
                } else if c == '#' {
                    scan(s, i - 1, ScanState::Blank, acc.insert(0, (id_key(), value)))
                } else if c == '.' {
                    scan(s, i - 1, ScanState::Blank, acc.insert(0, (class_key(), value)))
                } else if c == '=' {
                    scan(s, i - 1, ScanState::Key { key: Seq::empty(), value }, acc)
                } else if is_sep(c) {
                    None
                } else {
                    scan(s, i - 1, ScanState::Unquoted { value: value.insert(0, c) }, acc)
                }
            },
            ScanState::Key { key, value } => {
                if c == '{' {
                    Some((i - 1, acc.insert(0, (key, value))))
                } else if is_sep(c) {
                    scan(s, i - 1, ScanState::Blank, acc.insert(0, (key, value)))
                } else {
                    scan(s, i - 1, ScanState::Key { key: key.insert(0, c), value }, acc)
                }
            },
        }
    }
}

/// The raw scan of a whole input: start at the very end, in `Start`,
/// with nothing collected.
pub open spec fn scan_raw(s: Seq<char>) -> Option<(int, Seq<(Seq<char>, Seq<char>)>)> {
    scan(s, s.len() as int, ScanState::Start, Seq::empty())
}

/// `s` with every trailing whitespace character removed.
pub open spec fn trim_end(s: Seq<char>) -> Seq<char>
    decreases s.len(),
{
    if s.len() > 0 && is_white(s.last()) {
        trim_end(s.drop_last())
    } else {
        s
    }
}

/// What extraction returns: `None` for a malformed or absent annotation,
/// otherwise the remainder (text before the opening brace, trailing
/// whitespace trimmed) and the non-empty pair list in source order.
pub open spec fn parse_result(s: Seq<char>) -> Option<(Seq<char>, Seq<(Seq<char>, Seq<char>)>)> {
    match scan_raw(s) {
        Some((end, attrs)) => if attrs.len() > 0 {
            Some((trim_end(s.take(end)), attrs))
        } else {
            None
        },
        None => None,
    }
}

/// The pair list of an executable result, seen at the specification level.
pub open spec fn attrs_view(v: Seq<(String, String)>) -> Seq<(Seq<char>, Seq<char>)> {
    v.map_values(|p: (String, String)| (p.0@, p.1@))
}

fn is_white_char(c: char) -> (r: bool)
    ensures
        r == is_white(c),
{
    c == ' ' || ('\u{9}' <= c && c <= '\u{d}') || c == '\u{85}' || c == '\u{a0}'
        || c == '\u{1680}' || ('\u{2000}' <= c && c <= '\u{200a}') || c == '\u{2028}'
        || c == '\u{2029}' || c == '\u{202f}' || c == '\u{205f}' || c == '\u{3000}'
}

/// Relies on `String`'s `FromIterator<char>` implementation: collecting
/// characters yields the string of exactly those characters, in order.
#[verifier::external_body]
fn chars_to_string(v: &Vec<char>) -> (r: String)
    ensures
        r@ == v@,
{
    v.iter().copied().collect()
}

proof fn lemma_attrs_view_insert(v: Seq<(String, String)>, p: (String, String))
    ensures
        attrs_view(v.insert(0, p)) == attrs_view(v).insert(0, (p.0@, p.1@)),
{
    assert(attrs_view(v.insert(0, p)) =~= attrs_view(v).insert(0, (p.0@, p.1@)));
}

#[derive(Clone, Copy)]
enum State {
    Start,
    Blank,
    Quoted,
    Equal,
    Unquoted,
    Key,
}

spec fn st_of(state: State, key: Seq<char>, value: Seq<char>) -> ScanState {
    match state {
        State::Start => ScanState::Start,
        State::Blank => ScanState::Blank,
        State::Quoted => ScanState::Quoted { value },
        State::Equal => ScanState::Equal { value },
        State::Unquoted => ScanState::Unquoted { value },
        State::Key => ScanState::Key { key, value },
    }
}

fn scan_exec(cs: &Vec<char>) -> (r: Option<(usize, Vec<(String, String)>)>)
    ensures
        match r {
            Some((end, attrs)) => scan_raw(cs@) == Some(((end as int), attrs_view(attrs@)))
                && (end as int) < cs@.len(),
            None => scan_raw(cs@) is None,
        },
{
    let n: usize = cs.len();
    let mut i: usize = n;
    let mut state = State::Start;
    let mut key: Vec<char> = Vec::new();
    let mut value: Vec<char> = Vec::new();
    let mut attrs: Vec<(String, String)> = Vec::new();
    proof {
        assert(attrs_view(attrs@) =~= Seq::<(Seq<char>, Seq<char>)>::empty());
    }
    loop
        invariant
            i <= n,
            n == cs@.len(),
            scan(cs@, i as int, st_of(state, key@, value@), attrs_view(attrs@)) == scan_raw(cs@),
        decreases i,
    {
        let ghost i0 = i as int;
        let ghost st0 = st_of(state, key@, value@);
        let ghost acc0 = attrs_view(attrs@);
        if i == 0 {
            proof {
                assert(scan(cs@, 0, st0, acc0) is None);
            }
            return None;
        }
        let c = cs[i - 1];
        match state {
            State::Start => {
                if c == '}' {
                    state = State::Blank;
                } else {
                    return None;
                }
            },
            State::Blank => {
                if c == '{' {
                    return Some((i - 1, attrs));
                } else if c == '"' {
                    value = Vec::new();
                    state = State::Quoted;
                } else if c == ' ' || c == '\t' || c == '\n' || c == '\u{c}' || c == '\r' {
                    // separators between tokens are skipped
                } else {
                    value = Vec::new();
                    value.push(c);
                    proof {
                        assert(value@ =~= seq![c]);
                    }
                    state = State::Unquoted;
                }
            },
            State::Quoted => {
                if c == '"' {
                    state = State::Equal;
                } else {
                    value.insert(0, c);
                }
            },
            State::Equal => {
                if c == '\\' {
                    value.insert(0, '"');
                    state = State::Quoted;
                } else if c == '=' {
                    key = Vec::new();
                    state = State::Key;
                } else {
                    return None;
                }
            },
            State::Unquoted => {
                if c == '{' {
                    return None;
                } else if c == '#' {
                    let pair = (String::from_str("id"), chars_to_string(&value));
                    proof {
                        reveal_strlit("id");
                        assert(pair.0@ =~= id_key());
                        lemma_attrs_view_insert(attrs@, pair);
                    }
                    attrs.insert(0, pair);
                    state = State::Blank;
                } else if c == '.' {
                    let pair = (String::from_str("class"), chars_to_string(&value));
                    proof {
                        reveal_strlit("class");
                        assert(pair.0@ =~= class_key());
                        lemma_attrs_view_insert(attrs@, pair);
                    }
                    attrs.insert(0, pair);
                    state = State::Blank;
                } else if c == '=' {
                    key = Vec::new();
                    state = State::Key;
                } else if c == ' ' || c == '\t' || c == '\n' || c == '\u{c}' || c == '\r' {
                    return None;
                } else {
                    value.insert(0, c);
                }
            },
            State::Key => {
                if c == '{' || c == ' ' || c == '\t' || c == '\n' || c == '\u{c}' || c == '\r' {
                    let pair = (chars_to_string(&key), chars_to_string(&value));
                    proof {
                        lemma_attrs_view_insert(attrs@, pair);
                    }
                    attrs.insert(0, pair);
                    if c == '{' {
                        return Some((i - 1, attrs));
                    }
                    state = State::Blank;
                } else {
                    key.insert(0, c);
                }
            },
        }
        proof {
            assert(scan(cs@, i0, st0, acc0) == scan(
                cs@,
                i0 - 1,
                st_of(state, key@, value@),
                attrs_view(attrs@),
            ));
        }
        i = i - 1;
    }
}

/// Extract a trailing `{#id .class key="value"}` annotation from `s`.
///
/// On success the returned string is `s` up to the opening brace, with
/// trailing whitespace trimmed, and the vector holds the extracted key/value
/// pairs in source order; the vector is never empty. On a malformed or
/// absent annotation the returned string equals `s` and the vector is empty.
pub fn parse_attrs(s: &str) -> (res: (String, Vec<(String, String)>))
    ensures
        match parse_result(s@) {
            Some((rem, attrs)) => res.0@ == rem && attrs_view(res.1@) == attrs
                && res.1@.len() > 0,
            None => res.0@ == s@ && res.1@.len() == 0,
        },
{
    let n: usize = s.unicode_len();
    let mut cs: Vec<char> = Vec::new();
    let mut k: usize = 0;
    while k < n
        invariant
            k <= n,
            n == s@.len(),
            cs@ == s@.take(k as int),
        decreases n - k,
    {
        let c = s.get_char(k);
        cs.push(c);
        proof {
            assert(cs@ =~= s@.take(k as int + 1));
        }
        k = k + 1;
    }
    proof {
        assert(cs@ =~= s@);
    }
    match scan_exec(&cs) {
        None => (String::from_str(s), Vec::new()),
        Some((end, attrs)) => {
            if attrs.len() == 0 {
                (String::from_str(s), Vec::new())
            } else {
                let mut t: usize = end;
                loop
                    invariant
                        t <= end,
                        (end as int) < s@.len(),
                        cs@ == s@,
                        trim_end(s@.take(end as int)) == trim_end(s@.take(t as int)),
                    ensures
                        t <= end,
                        trim_end(s@.take(end as int)) == s@.take(t as int),
                    decreases t,
                {
                    if t == 0 {
                        proof {
                            assert(s@.take(0) =~= Seq::<char>::empty());
                        }
                        break;
                    }
                    let c = cs[t - 1];
                    proof {
                        assert(s@.take(t as int).last() == s@[t as int - 1]);
                    }
                    if !is_white_char(c) {
                        break;
                    }
                    proof {
                        assert(s@.take(t as int).drop_last() =~= s@.take(t as int - 1));
                    }
                    t = t - 1;
                }
                let rem = s.substring_char(0, t);
                proof {
                    assert(s@.subrange(0, t as int) =~= s@.take(t as int));
                }
                (String::from_str(rem), attrs)
            }
        },
    }
}

} // verus!
