//! Character-level helpers on strings: whitespace, trimming, splitting,
//! byte-order comparison and path joining.

use vstd::prelude::*;

verus! {

/// Appends one character to a string.
///
/// Wraps `String::push`, whose documentation says it appends the given
/// `char` to the end of the string; the contract states exactly that.
#[verifier::external_body]
pub(crate) fn push_char(s: &mut String, c: char)
    ensures
        final(s)@ == old(s)@.push(c),
{
    s.push(c);
}

/// The Unicode `White_Space` property, which `char::is_whitespace` tests.
pub open spec fn is_white_space(c: char) -> bool {
    ||| ('\u{9}' <= c && c <= '\u{d}')
    ||| c == ' '
    ||| c == '\u{85}'
    ||| c == '\u{a0}'
    ||| c == '\u{1680}'
    ||| ('\u{2000}' <= c && c <= '\u{200a}')
    ||| c == '\u{2028}'
    ||| c == '\u{2029}'
    ||| c == '\u{202f}'
    ||| c == '\u{205f}'
    ||| c == '\u{3000}'
}

/// Decides the Unicode `White_Space` property of a character.
pub fn white_space(c: char) -> (r: bool)
    ensures
        r == is_white_space(c),
{
    ('\u{9}' <= c && c <= '\u{d}') || c == ' ' || c == '\u{85}' || c == '\u{a0}' || c == '\u{1680}'
        || ('\u{2000}' <= c && c <= '\u{200a}') || c == '\u{2028}' || c == '\u{2029}' || c
        == '\u{202f}' || c == '\u{205f}' || c == '\u{3000}'
}

} // verus!

verus! {

/// `s` with leading white space removed.
pub open spec fn trim_start(s: Seq<char>) -> Seq<char>
    decreases s.len(),
{
    if s.len() > 0 && is_white_space(s[0]) {
        trim_start(s.drop_first())
    } else {
        s
    }
}

/// `s` with trailing white space removed.
pub open spec fn trim_end(s: Seq<char>) -> Seq<char>
    decreases s.len(),
{
    if s.len() > 0 && is_white_space(s.last()) {
        trim_end(s.drop_last())
    } else {
        s
    }
}

/// `s` with leading and trailing white space removed, as `str::trim` does.
pub open spec fn trim(s: Seq<char>) -> Seq<char> {
    trim_end(trim_start(s))
}

/// The pieces of `s` between commas, as `str::split(",")` yields them:
/// one more piece than there are commas, empty pieces included.
pub open spec fn split_commas(s: Seq<char>) -> Seq<Seq<char>>
    decreases s.len(),
{
    if s.len() == 0 {
        seq![Seq::empty()]
    } else {
        let init = split_commas(s.drop_last());
        if s.last() == ',' {
            init.push(Seq::empty())
        } else {
            init.update(init.len() - 1, init.last().push(s.last()))
        }
    }
}

/// The trimmed pieces that are not empty, in order.
pub open spec fn trimmed_nonempty(pieces: Seq<Seq<char>>) -> Seq<Seq<char>> {
    pieces.map_values(|p: Seq<char>| trim(p)).filter(|p: Seq<char>| p.len() > 0)
}

/// The peer list that a comma-separated setting denotes: every piece between
/// commas, trimmed, the empty ones dropped.
pub open spec fn peer_list(s: Seq<char>) -> Seq<Seq<char>> {
    trimmed_nonempty(split_commas(s))
}

/// The views of a sequence of strings.
pub open spec fn string_views(v: Seq<String>) -> Seq<Seq<char>> {
    v.map_values(|s: String| s@)
}

proof fn lemma_split_commas_nonempty(s: Seq<char>)
    ensures
        split_commas(s).len() >= 1,
    decreases s.len(),
{
    if s.len() > 0 {
        lemma_split_commas_nonempty(s.drop_last());
    }
}

proof fn lemma_trimmed_nonempty_push(pieces: Seq<Seq<char>>, x: Seq<char>)
    ensures
        trimmed_nonempty(pieces.push(x)) == if trim(x).len() > 0 {
            trimmed_nonempty(pieces).push(trim(x))
        } else {
            trimmed_nonempty(pieces)
        },
{
    let f = |p: Seq<char>| trim(p);
    let q = |p: Seq<char>| p.len() > 0;
    pieces.lemma_push_map_commute(f, x);
    assert(pieces.push(x).map_values(f) == pieces.map_values(f).push(trim(x)));
    pieces.map_values(f).lemma_filter_push(trim(x), q);
}

pub proof fn lemma_string_views_push(v: Seq<String>, s: String)
    ensures
        string_views(v.push(s)) == string_views(v).push(s@),
{
    v.lemma_push_map_commute(|s: String| s@, s);
}

/// Skipping leading white space one character at a time keeps `trim_start`.
proof fn lemma_trim_start_skip(s: Seq<char>, k: int)
    requires
        0 <= k <= s.len(),
        forall|j: int| 0 <= j < k ==> is_white_space(#[trigger] s[j]),
    ensures
        trim_start(s) == trim_start(s.skip(k)),
    decreases k,
{
    if k > 0 {
        assert(s.skip(1) == s.drop_first());
        lemma_trim_start_skip(s.drop_first(), k - 1);
        assert(s.drop_first().skip(k - 1) == s.skip(k));
    } else {
        assert(s.skip(0) == s);
    }
}

/// Dropping trailing white space one character at a time keeps `trim_end`.
proof fn lemma_trim_end_take(s: Seq<char>, k: int)
    requires
        0 <= k <= s.len(),
        forall|j: int| k <= j < s.len() ==> is_white_space(#[trigger] s[j]),
    ensures
        trim_end(s) == trim_end(s.take(k)),
    decreases s.len() - k,
{
    if k < s.len() {
        lemma_trim_end_take(s.drop_last(), k);
        assert(s.drop_last().take(k) == s.take(k));
    } else {
        assert(s.take(k) == s);
    }
}

/// Collects the characters of a string.
fn chars_of(s: &str) -> (chars: Vec<char>)
    ensures
        chars@ == s@,
{
    let n = s.unicode_len();
    let mut chars: Vec<char> = Vec::new();
    let mut i: usize = 0;
    while i < n
        invariant
            n == s@.len(),
            i <= n,
            chars@ == s@.take(i as int),
        decreases n - i,
    {
        let c = s.get_char(i);
        chars.push(c);
        i = i + 1;
        assert(chars@ == s@.take(i as int));
    }
    assert(s@.take(n as int) == s@);
    chars
}

/// A string made of `chars[from..to]`.
fn string_from_chars(chars: &Vec<char>, from: usize, to: usize) -> (r: String)
    requires
        from <= to <= chars@.len(),
    ensures
        r@ == chars@.subrange(from as int, to as int),
{
    let mut r = String::new();
    let mut i = from;
    while i < to
        invariant
            from <= i <= to <= chars@.len(),
            r@ == chars@.subrange(from as int, i as int),
        decreases to - i,
    {
        push_char(&mut r, chars[i]);
        i = i + 1;
        assert(r@ == chars@.subrange(from as int, i as int));
    }
    r
}

/// The bounds of `chars[from..to]` once white space is trimmed off both ends.
fn trim_bounds(chars: &Vec<char>, from: usize, to: usize) -> (bounds: (usize, usize))
    requires
        from <= to <= chars@.len(),
    ensures
        from <= bounds.0 <= bounds.1 <= to,
        chars@.subrange(bounds.0 as int, bounds.1 as int) == trim(
            chars@.subrange(from as int, to as int),
        ),
{
    let ghost s = chars@.subrange(from as int, to as int);
    let mut a = from;
    while a < to && white_space(chars[a])
        invariant
            from <= a <= to <= chars@.len(),
            forall|j: int| from <= j < a ==> is_white_space(#[trigger] chars@[j]),
        decreases to - a,
    {
        a = a + 1;
    }
    proof {
        assert forall|j: int| 0 <= j < a - from implies is_white_space(#[trigger] s[j]) by {
            assert(s[j] == chars@[from + j]);
        }
        lemma_trim_start_skip(s, a - from);
        assert(s.skip(a - from) == chars@.subrange(a as int, to as int));
    }
    let ghost t = chars@.subrange(a as int, to as int);
    assert(trim_start(s) == trim_start(t));
    assert(trim_start(t) == t) by {
        if t.len() > 0 {
            assert(t[0] == chars@[a as int]);
        }
    }
    let mut b = to;
    while b > a && white_space(chars[b - 1])
        invariant
            a <= b <= to <= chars@.len(),
            forall|j: int| b <= j < to ==> is_white_space(#[trigger] chars@[j]),
        decreases b - a,
    {
        b = b - 1;
    }
    proof {
        assert forall|j: int| b - a <= j < t.len() implies is_white_space(#[trigger] t[j]) by {
            assert(t[j] == chars@[a + j]);
        }
        lemma_trim_end_take(t, b - a);
        let u = t.take(b - a);
        assert(u == chars@.subrange(a as int, b as int));
        assert(trim_end(u) == u) by {
            if u.len() > 0 {
                assert(u.last() == chars@[b - 1]);
            }
        }
    }
    (a, b)
}

/// Reads a comma-separated list of peers: each piece between commas is
/// trimmed of white space and kept when something is left.
pub fn parse_peers(value: &str) -> (peers: Vec<String>)
    ensures
        string_views(peers@) == peer_list(value@),
{
    let chars = chars_of(value);
    let n = chars.len();
    let mut peers: Vec<String> = Vec::new();
    let mut start: usize = 0;
    let mut i: usize = 0;
    let ghost mut done: Seq<Seq<char>> = Seq::empty();
    assert(chars@.take(0) == Seq::<char>::empty());
    assert(chars@.subrange(0, 0) == Seq::<char>::empty());
    while i < n
        invariant
            n == chars@.len(),
            start <= i <= n,
            split_commas(chars@.take(i as int)) == done.push(
                chars@.subrange(start as int, i as int),
            ),
            string_views(peers@) == trimmed_nonempty(done),
        decreases n - i,
    {
        let ghost prefix = chars@.take(i as int + 1);
        assert(prefix.drop_last() == chars@.take(i as int));
        assert(prefix.last() == chars@[i as int]);
        if chars[i] == ',' {
            let (a, b) = trim_bounds(&chars, start, i);
            proof {
                lemma_trimmed_nonempty_push(done, chars@.subrange(start as int, i as int));
            }
            if a < b {
                let p = string_from_chars(&chars, a, b);
                proof {
                    lemma_string_views_push(peers@, p);
                }
                peers.push(p);
            }
            proof {
                done = done.push(chars@.subrange(start as int, i as int));
            }
            start = i + 1;
            assert(chars@.subrange(start as int, i as int + 1) == Seq::<char>::empty());
        } else {
            assert(chars@.subrange(start as int, i as int).push(chars@[i as int])
                == chars@.subrange(start as int, i as int + 1));
        }
        i = i + 1;
    }
    assert(chars@.take(n as int) == chars@);
    let (a, b) = trim_bounds(&chars, start, n);
    proof {
        lemma_trimmed_nonempty_push(done, chars@.subrange(start as int, n as int));
    }
    if a < b {
        let p = string_from_chars(&chars, a, b);
        proof {
            lemma_string_views_push(peers@, p);
        }
        peers.push(p);
    }
    peers
}

} // verus!

verus! {

/// A peer entry as the list should hold it: not empty, no white space at
/// either end, no comma inside.
pub open spec fn is_clean_entry(e: Seq<char>) -> bool {
    &&& e.len() > 0
    &&& !is_white_space(e[0])
    &&& !is_white_space(e.last())
    &&& !e.contains(',')
}

proof fn lemma_trim_start_shape(s: Seq<char>)
    ensures
        exists|k: int| 0 <= k <= s.len() && trim_start(s) == s.skip(k),
        trim_start(s).len() > 0 ==> !is_white_space(trim_start(s)[0]),
    decreases s.len(),
{
    if s.len() > 0 && is_white_space(s[0]) {
        lemma_trim_start_shape(s.drop_first());
        let k = choose|k: int| 0 <= k <= s.drop_first().len() && trim_start(s.drop_first()) == s.drop_first().skip(k);
        assert(s.drop_first().skip(k) == s.skip(k + 1));
    } else {
        assert(s.skip(0) == s);
    }
}

proof fn lemma_trim_end_shape(s: Seq<char>)
    ensures
        exists|k: int| 0 <= k <= s.len() && trim_end(s) == s.take(k),
        trim_end(s).len() > 0 ==> !is_white_space(trim_end(s).last()),
    decreases s.len(),
{
    if s.len() > 0 && is_white_space(s.last()) {
        lemma_trim_end_shape(s.drop_last());
        let k = choose|k: int| 0 <= k <= s.drop_last().len() && trim_end(s.drop_last()) == s.drop_last().take(k);
        assert(s.drop_last().take(k) == s.take(k));
    } else {
        assert(s.take(s.len() as int) == s);
    }
}

proof fn lemma_trim_shape(s: Seq<char>)
    requires
        !s.contains(','),
    ensures
        trim(s).len() > 0 ==> is_clean_entry(trim(s)),
{
    lemma_trim_start_shape(s);
    let t = trim_start(s);
    let k1 = choose|k: int| 0 <= k <= s.len() && trim_start(s) == s.skip(k);
    lemma_trim_end_shape(t);
    let k2 = choose|k: int| 0 <= k <= t.len() && trim_end(t) == t.take(k);
    let u = trim(s);
    if u.len() > 0 {
        assert(u[0] == t[0]);
        assert forall|i: int| 0 <= i < u.len() implies u[i] != ',' by {
            assert(u[i] == s[k1 + i]);
        }
    }
}

proof fn lemma_split_pieces_no_comma(s: Seq<char>)
    ensures
        forall|i: int| 0 <= i < split_commas(s).len() ==> !(#[trigger] split_commas(s)[i]).contains(','),
    decreases s.len(),
{
    if s.len() > 0 {
        lemma_split_pieces_no_comma(s.drop_last());
        lemma_split_commas_nonempty(s.drop_last());
        let init = split_commas(s.drop_last());
        if s.last() != ',' {
            let last = init.last().push(s.last());
            assert(!init[init.len() - 1].contains(','));
            assert forall|j: int| 0 <= j < last.len() implies last[j] != ',' by {
                if j < last.len() - 1 {
                    assert(last[j] == init.last()[j]);
                }
            }
        }
    }
}

proof fn lemma_trimmed_nonempty_clean(pieces: Seq<Seq<char>>)
    requires
        forall|i: int| 0 <= i < pieces.len() ==> !(#[trigger] pieces[i]).contains(','),
    ensures
        forall|i: int|
            0 <= i < trimmed_nonempty(pieces).len() ==> is_clean_entry(#[trigger] trimmed_nonempty(pieces)[i]),
    decreases pieces.len(),
{
    if pieces.len() > 0 {
        let init = pieces.drop_last();
        assert forall|i: int| 0 <= i < init.len() implies !(#[trigger] init[i]).contains(',') by {
            assert(init[i] == pieces[i]);
        }
        lemma_trimmed_nonempty_clean(init);
        lemma_trimmed_nonempty_push(init, pieces.last());
        assert(init.push(pieces.last()) == pieces);
        lemma_trim_shape(pieces.last());
    } else {
        assert(trimmed_nonempty(pieces).len() == 0) by {
            reveal(Seq::filter);
        }
    }
}

/// Every peer that a setting lists is a clean entry: not empty, trimmed, and
/// free of commas.
pub proof fn lemma_peer_list_entries_clean(s: Seq<char>)
    ensures
        forall|i: int| 0 <= i < peer_list(s).len() ==> is_clean_entry(#[trigger] peer_list(s)[i]),
{
    lemma_split_pieces_no_comma(s);
    lemma_trimmed_nonempty_clean(split_commas(s));
}

} // verus!
