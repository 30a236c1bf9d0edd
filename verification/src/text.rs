//! Byte-string operations the batching pipeline is built from: whitespace
//! trimming, line-terminator stripping, delimiter joining, and substring
//! replacement.  Each executable function is specified against a spec
//! function over `Seq<u8>`.

use vstd::prelude::*;

verus! {

/// Whether the byte `b` is on its own a whitespace character: the ASCII
/// characters that carry the Unicode `White_Space` property (tab, line
/// feed, vertical tab, form feed, carriage return, space).
pub open spec fn is_space_byte(b: u8) -> bool {
    b == 9 || b == 10 || b == 11 || b == 12 || b == 13 || b == 32
}

/// Whether the two bytes are the UTF-8 encoding of a whitespace
/// character (next line, no-break space).
pub open spec fn is_space_pair(a: u8, b: u8) -> bool {
    a == 0xc2 && (b == 0x85 || b == 0xa0)
}

/// Whether the three bytes are the UTF-8 encoding of a whitespace
/// character (ogham space mark, the en-quad through hair-space range,
/// line and paragraph separators, narrow no-break space, medium
/// mathematical space, ideographic space).
pub open spec fn is_space_triple(a: u8, b: u8, c: u8) -> bool {
    (a == 0xe1 && b == 0x9a && c == 0x80) || (a == 0xe2 && b == 0x80 && (0x80 <= c <= 0x8a || c
        == 0xa8 || c == 0xa9 || c == 0xaf)) || (a == 0xe2 && b == 0x81 && c == 0x9f) || (a == 0xe3
        && b == 0x80 && c == 0x80)
}

/// Byte length of the whitespace character at the front of `s`: 0 when
/// `s` does not start with one.  No whitespace character's encoding ends
/// in another's, and none of the leading bytes tested here can occur
/// inside a longer character, so the three tests cannot disagree on
/// well-formed text.
pub open spec fn leading_space_len(s: Seq<u8>) -> int {
    if s.len() >= 1 && is_space_byte(s[0]) {
        1
    } else if s.len() >= 2 && is_space_pair(s[0], s[1]) {
        2
    } else if s.len() >= 3 && is_space_triple(s[0], s[1], s[2]) {
        3
    } else {
        0
    }
}

/// Byte length of the whitespace character at the end of `s`: 0 when
/// `s` does not end with one.
pub open spec fn trailing_space_len(s: Seq<u8>) -> int {
    if s.len() >= 1 && is_space_byte(s[s.len() - 1]) {
        1
    } else if s.len() >= 2 && is_space_pair(s[s.len() - 2], s[s.len() - 1]) {
        2
    } else if s.len() >= 3 && is_space_triple(s[s.len() - 3], s[s.len() - 2], s[s.len() - 1]) {
        3
    } else {
        0
    }
}

/// `s` with every leading whitespace character removed.
pub open spec fn trim_start_spaces(s: Seq<u8>) -> Seq<u8>
    decreases s.len(),
{
    if leading_space_len(s) > 0 {
        trim_start_spaces(s.skip(leading_space_len(s)))
    } else {
        s
    }
}

/// `s` with every trailing whitespace character removed.
pub open spec fn trim_end_spaces(s: Seq<u8>) -> Seq<u8>
    decreases s.len(),
{
    if trailing_space_len(s) > 0 {
        trim_end_spaces(s.take(s.len() - trailing_space_len(s)))
    } else {
        s
    }
}

/// `s` with all leading and trailing whitespace removed, as `str::trim`
/// leaves a line.
pub open spec fn trimmed(s: Seq<u8>) -> Seq<u8> {
    trim_end_spaces(trim_start_spaces(s))
}

/// A line with its terminator removed and nothing else: at most one
/// trailing line feed, then at most one trailing carriage return.
pub open spec fn eol_stripped(s: Seq<u8>) -> Seq<u8> {
    let t = if s.len() > 0 && s[s.len() - 1] == 10 {
        s.take(s.len() - 1)
    } else {
        s
    };
    if t.len() > 0 && t[t.len() - 1] == 13 {
        t.take(t.len() - 1)
    } else {
        t
    }
}

/// Whether `b` alone is whitespace.
fn is_space_byte_ex(b: u8) -> (r: bool)
    ensures
        r == is_space_byte(b),
{
    b == 9 || b == 10 || b == 11 || b == 12 || b == 13 || b == 32
}

/// Whether the pair is a whitespace character.
fn is_space_pair_ex(a: u8, b: u8) -> (r: bool)
    ensures
        r == is_space_pair(a, b),
{
    a == 0xc2 && (b == 0x85 || b == 0xa0)
}

/// Whether the triple is a whitespace character.
fn is_space_triple_ex(a: u8, b: u8, c: u8) -> (r: bool)
    ensures
        r == is_space_triple(a, b, c),
{
    (a == 0xe1 && b == 0x9a && c == 0x80) || (a == 0xe2 && b == 0x80 && ((0x80 <= c && c <= 0x8a)
        || c == 0xa8 || c == 0xa9 || c == 0xaf)) || (a == 0xe2 && b == 0x81 && c == 0x9f) || (a
        == 0xe3 && b == 0x80 && c == 0x80)
}

/// Copies `v[from..to]` into a fresh vector.
pub(crate) fn copy_range(v: &Vec<u8>, from: usize, to: usize) -> (r: Vec<u8>)
    requires
        from <= to <= v@.len(),
    ensures
        r@ == v@.subrange(from as int, to as int),
{
    let mut r: Vec<u8> = Vec::new();
    proof {
        assert(r@ =~= v@.subrange(from as int, from as int));
    }
    let mut i: usize = from;
    while i < to
        invariant
            from <= i <= to <= v@.len(),
            r@ == v@.subrange(from as int, i as int),
        decreases to - i,
    {
        r.push(v[i]);
        i = i + 1;
        proof {
            assert(r@ =~= v@.subrange(from as int, i as int));
        }
    }
    r
}

/// Copies a byte vector.
pub(crate) fn copy_bytes(v: &Vec<u8>) -> (r: Vec<u8>)
    ensures
        r@ == v@,
{
    let r = copy_range(v, 0, v.len());
    proof {
        assert(v@.subrange(0, v@.len() as int) =~= v@);
    }
    r
}

/// Appends the bytes of `src` to `dst`.
pub(crate) fn append_bytes(dst: &mut Vec<u8>, src: &Vec<u8>)
    ensures
        final(dst)@ == old(dst)@ + src@,
{
    proof {
        assert(dst@ =~= old(dst)@ + src@.take(0));
    }
    let mut i: usize = 0;
    while i < src.len()
        invariant
            i <= src@.len(),
            dst@ == old(dst)@ + src@.take(i as int),
        decreases src@.len() - i,
    {
        dst.push(src[i]);
        i = i + 1;
        proof {
            assert(dst@ =~= old(dst)@ + src@.take(i as int));
        }
    }
    proof {
        assert(src@.take(src@.len() as int) =~= src@);
    }
}

/// Byte length of the whitespace character at the front of `v[from..to]`.
fn leading_space_len_at(v: &Vec<u8>, from: usize, to: usize) -> (l: usize)
    requires
        from <= to <= v@.len(),
    ensures
        l == leading_space_len(v@.subrange(from as int, to as int)),
        l <= to - from,
{
    let n = to - from;
    let ghost t = v@.subrange(from as int, to as int);
    proof {
        if n >= 1 {
            assert(t[0] == v@[from as int]);
        }
        if n >= 2 {
            assert(t[1] == v@[from as int + 1]);
        }
        if n >= 3 {
            assert(t[2] == v@[from as int + 2]);
        }
    }
    if n >= 1 && is_space_byte_ex(v[from]) {
        1
    } else if n >= 2 && is_space_pair_ex(v[from], v[from + 1]) {
        2
    } else if n >= 3 && is_space_triple_ex(v[from], v[from + 1], v[from + 2]) {
        3
    } else {
        0
    }
}

/// Byte length of the whitespace character at the end of `v[from..to]`.
fn trailing_space_len_at(v: &Vec<u8>, from: usize, to: usize) -> (l: usize)
    requires
        from <= to <= v@.len(),
    ensures
        l == trailing_space_len(v@.subrange(from as int, to as int)),
        l <= to - from,
{
    let n = to - from;
    let ghost t = v@.subrange(from as int, to as int);
    proof {
        if n >= 1 {
            assert(t[t.len() - 1] == v@[to - 1]);
        }
        if n >= 2 {
            assert(t[t.len() - 2] == v@[to - 2]);
        }
        if n >= 3 {
            assert(t[t.len() - 3] == v@[to - 3]);
        }
    }
    if n >= 1 && is_space_byte_ex(v[to - 1]) {
        1
    } else if n >= 2 && is_space_pair_ex(v[to - 2], v[to - 1]) {
        2
    } else if n >= 3 && is_space_triple_ex(v[to - 3], v[to - 2], v[to - 1]) {
        3
    } else {
        0
    }
}

/// `v` with leading and trailing whitespace removed, as `str::trim`
/// leaves a line.
pub fn trim_line(v: &Vec<u8>) -> (r: Vec<u8>)
    ensures
        r@ == trimmed(v@),
{
    let mut start: usize = 0;
    proof {
        assert(v@.skip(0) =~= v@);
    }
    loop
        invariant
            start <= v@.len(),
            trim_start_spaces(v@) == trim_start_spaces(v@.skip(start as int)),
        ensures
            start <= v@.len(),
            trim_start_spaces(v@) == v@.skip(start as int),
        decreases v@.len() - start,
    {
        let l = leading_space_len_at(v, start, v.len());
        proof {
            assert(v@.subrange(start as int, v@.len() as int) =~= v@.skip(start as int));
        }
        if l == 0 {
            break;
        }
        proof {
            assert(v@.skip(start as int).skip(l as int) =~= v@.skip(start as int + l as int));
        }
        start = start + l;
    }
    let mut end: usize = v.len();
    proof {
        assert(v@.skip(start as int) =~= v@.subrange(start as int, v@.len() as int));
    }
    loop
        invariant
            start <= end <= v@.len(),
            trim_end_spaces(v@.skip(start as int)) == trim_end_spaces(
                v@.subrange(start as int, end as int),
            ),
        ensures
            start <= end <= v@.len(),
            trim_end_spaces(v@.skip(start as int)) == v@.subrange(start as int, end as int),
        decreases end,
    {
        let l = trailing_space_len_at(v, start, end);
        if l == 0 {
            break;
        }
        proof {
            let t = v@.subrange(start as int, end as int);
            assert(t.take(t.len() - trailing_space_len(t)) =~= v@.subrange(
                start as int,
                end as int - l as int,
            ));
        }
        end = end - l;
    }
    copy_range(v, start, end)
}

/// A line with its terminator removed: at most one trailing line feed,
/// then at most one trailing carriage return.
pub fn strip_eol_line(v: &Vec<u8>) -> (r: Vec<u8>)
    ensures
        r@ == eol_stripped(v@),
{
    let mut end: usize = v.len();
    if end > 0 && v[end - 1] == 10 {
        end = end - 1;
    }
    if end > 0 && v[end - 1] == 13 {
        end = end - 1;
    }
    proof {
        assert(eol_stripped(v@) =~= v@.subrange(0, end as int));
    }
    copy_range(v, 0, end)
}

/// The elements of `parts` concatenated, with `d` between consecutive
/// elements.
pub open spec fn joined(parts: Seq<Seq<u8>>, d: Seq<u8>) -> Seq<u8>
    decreases parts.len(),
{
    if parts.len() == 0 {
        Seq::empty()
    } else if parts.len() == 1 {
        parts[0]
    } else {
        parts[0] + d + joined(parts.skip(1), d)
    }
}

/// Joining one more part appends a delimiter (when anything was joined
/// already) and then the part.
proof fn lemma_joined_push(parts: Seq<Seq<u8>>, d: Seq<u8>, x: Seq<u8>)
    ensures
        joined(parts.push(x), d) == if parts.len() == 0 {
            x
        } else {
            joined(parts, d) + d + x
        },
    decreases parts.len(),
{
    if parts.len() == 0 {
        assert(parts.push(x)[0] == x);
    } else if parts.len() == 1 {
        assert(parts.push(x).skip(1) =~= seq![x]);
        assert(joined(seq![x], d) == x);
        assert(parts.push(x)[0] == parts[0]);
    } else {
        lemma_joined_push(parts.skip(1), d, x);
        assert(parts.push(x).skip(1) =~= parts.skip(1).push(x));
        assert(parts.push(x)[0] == parts[0]);
        assert(parts[0] + d + (joined(parts.skip(1), d) + d + x) =~= (parts[0] + d + joined(
            parts.skip(1),
            d,
        )) + d + x);
    }
}

/// Joins `parts` with the delimiter `d`, as slice `join` does.
pub fn join_lines(parts: &Vec<Vec<u8>>, d: &Vec<u8>) -> (r: Vec<u8>)
    ensures
        r@ == joined(parts.deep_view(), d@),
{
    let mut r: Vec<u8> = Vec::new();
    proof {
        assert(parts.deep_view().take(0) =~= Seq::<Seq<u8>>::empty());
    }
    let mut i: usize = 0;
    while i < parts.len()
        invariant
            i <= parts@.len(),
            parts.deep_view().len() == parts@.len(),
            r@ == joined(parts.deep_view().take(i as int), d@),
        decreases parts@.len() - i,
    {
        if i > 0 {
            append_bytes(&mut r, d);
        }
        append_bytes(&mut r, &parts[i]);
        proof {
            lemma_joined_push(parts.deep_view().take(i as int), d@, parts.deep_view()[i as int]);
            assert(parts.deep_view().take(i as int).push(parts.deep_view()[i as int]) =~= parts
                .deep_view()
                .take(i as int + 1));
            assert(parts.deep_view()[i as int] == parts@[i as int]@);
        }
        i = i + 1;
    }
    proof {
        assert(parts.deep_view().take(parts@.len() as int) =~= parts.deep_view());
    }
    r
}

/// Byte length of the first UTF-8 character of `s`, read from its
/// leading byte and capped at the length of `s`; a byte that starts no
/// character counts as a character of its own.
pub open spec fn first_char_len(s: Seq<u8>) -> int {
    if s.len() == 0 {
        0
    } else {
        let l: int = if s[0] < 0x80 {
            1
        } else if s[0] >= 0xf0 {
            4
        } else if s[0] >= 0xe0 {
            3
        } else if s[0] >= 0xc0 {
            2
        } else {
            1
        };
        if l <= s.len() {
            l
        } else {
            s.len() as int
        }
    }
}

/// `s` with every occurrence of `pat` replaced by `to`: occurrences are
/// found left to right without overlap, as `str::replace` finds them; an
/// empty pattern matches at every character boundary and once at the
/// end.
pub open spec fn replaced(s: Seq<u8>, pat: Seq<u8>, to: Seq<u8>) -> Seq<u8>
    decreases s.len(),
{
    if s.len() == 0 {
        if pat.len() == 0 {
            to
        } else {
            s
        }
    } else if 0 < pat.len() <= s.len() && s.take(pat.len() as int) == pat {
        to + replaced(s.skip(pat.len() as int), pat, to)
    } else if pat.len() == 0 {
        to + s.take(first_char_len(s)) + replaced(s.skip(first_char_len(s)), pat, to)
    } else {
        seq![s[0]] + replaced(s.skip(1), pat, to)
    }
}

/// Whether `pat` occurs as a contiguous run inside `s`.
pub open spec fn has_sub(s: Seq<u8>, pat: Seq<u8>) -> bool {
    exists|i: int|
        0 <= i && i + pat.len() <= s.len() && #[trigger] s.subrange(i, i + pat.len()) == pat
}

/// An argument equal to the tag alone renders to exactly the payload.
pub proof fn lemma_replaced_tag_alone(pat: Seq<u8>, to: Seq<u8>)
    ensures
        replaced(pat, pat, to) == to,
{
    if pat.len() == 0 {
    } else {
        assert(pat.take(pat.len() as int) =~= pat);
        assert(pat.skip(pat.len() as int) =~= Seq::<u8>::empty());
        assert(replaced(Seq::<u8>::empty(), pat, to) == Seq::<u8>::empty());
        assert(to + Seq::<u8>::empty() =~= to);
    }
}

/// An argument in which the tag does not occur renders unchanged.
pub proof fn lemma_replaced_absent(s: Seq<u8>, pat: Seq<u8>, to: Seq<u8>)
    requires
        pat.len() >= 1,
        !has_sub(s, pat),
    ensures
        replaced(s, pat, to) == s,
    decreases s.len(),
{
    if s.len() == 0 {
    } else {
        if pat.len() <= s.len() && s.take(pat.len() as int) == pat {
            assert(s.subrange(0, 0 + pat.len() as int) =~= s.take(pat.len() as int));
            assert(has_sub(s, pat));
            assert(false);
        }
        assert(!has_sub(s.skip(1), pat)) by {
            if has_sub(s.skip(1), pat) {
                let i = choose|i: int|
                    0 <= i && i + pat.len() <= s.skip(1).len() && #[trigger] s.skip(1).subrange(
                        i,
                        i + pat.len(),
                    ) == pat;
                assert(s.subrange(i + 1, i + 1 + pat.len()) =~= s.skip(1).subrange(
                    i,
                    i + pat.len(),
                ));
            }
        }
        lemma_replaced_absent(s.skip(1), pat, to);
        assert(seq![s[0]] + s.skip(1) =~= s);
    }
}

/// Byte length of the first UTF-8 character of `v[i..]`.
fn first_char_len_at(v: &Vec<u8>, i: usize) -> (l: usize)
    requires
        i < v@.len(),
    ensures
        l == first_char_len(v@.skip(i as int)),
        1 <= l,
        i + l <= v@.len(),
{
    proof {
        assert(v@.skip(i as int)[0] == v@[i as int]);
    }
    let b = v[i];
    let n = v.len() - i;
    let l: usize = if b < 0x80 {
        1
    } else if b >= 0xf0 {
        4
    } else if b >= 0xe0 {
        3
    } else if b >= 0xc0 {
        2
    } else {
        1
    };
    if l <= n {
        l
    } else {
        n
    }
}

/// Whether `pat` occurs in `s` starting at position `i`.
fn has_pat_at(s: &Vec<u8>, i: usize, pat: &Vec<u8>) -> (r: bool)
    requires
        i <= s@.len(),
    ensures
        r == (i + pat@.len() <= s@.len() && s@.subrange(i as int, i as int + pat@.len() as int)
            == pat@),
{
    if pat.len() > s.len() - i {
        return false;
    }
    let mut j: usize = 0;
    while j < pat.len()
        invariant
            j <= pat@.len(),
            i + pat@.len() <= s@.len(),
            s@.len() <= usize::MAX,
            forall|k: int| 0 <= k < j ==> s@[i + k] == pat@[k],
        decreases pat@.len() - j,
    {
        if s[i + j] != pat[j] {
            proof {
                assert(s@.subrange(i as int, i as int + pat@.len() as int)[j as int] == s@[i + j]);
            }
            return false;
        }
        j = j + 1;
    }
    proof {
        assert(s@.subrange(i as int, i as int + pat@.len() as int) =~= pat@);
    }
    true
}

/// `s` with every occurrence of `pat` replaced by `to`, as `str::replace`
/// computes it.
pub fn replace_all(s: &Vec<u8>, pat: &Vec<u8>, to: &Vec<u8>) -> (r: Vec<u8>)
    ensures
        r@ == replaced(s@, pat@, to@),
{
    let mut r: Vec<u8> = Vec::new();
    if pat.len() == 0 {
        proof {
            assert(s@.skip(0) =~= s@);
            assert(r@ + replaced(s@, pat@, to@) =~= replaced(s@, pat@, to@));
        }
        let mut i: usize = 0;
        while i < s.len()
            invariant
                i <= s@.len(),
                pat@.len() == 0,
                replaced(s@, pat@, to@) == r@ + replaced(s@.skip(i as int), pat@, to@),
            decreases s@.len() - i,
        {
            let ghost r0 = r@;
            let ghost rem = s@.skip(i as int);
            append_bytes(&mut r, to);
            let l = first_char_len_at(s, i);
            let chunk = copy_range(s, i, i + l);
            append_bytes(&mut r, &chunk);
            proof {
                assert(rem.take(first_char_len(rem)) =~= s@.subrange(
                    i as int,
                    i as int + l as int,
                ));
                assert(rem.skip(first_char_len(rem)) =~= s@.skip(i as int + l as int));
                assert(replaced(rem, pat@, to@) == to@ + rem.take(first_char_len(rem)) + replaced(
                    s@.skip(i as int + l as int),
                    pat@,
                    to@,
                ));
                assert(r@ =~= r0 + to@ + s@.subrange(i as int, i as int + l as int));
                assert(r0 + (to@ + s@.subrange(i as int, i as int + l as int) + replaced(
                    s@.skip(i as int + l as int),
                    pat@,
                    to@,
                )) =~= (r0 + to@ + s@.subrange(i as int, i as int + l as int)) + replaced(
                    s@.skip(i as int + l as int),
                    pat@,
                    to@,
                ));
            }
            i = i + l;
        }
        proof {
            assert(s@.skip(s@.len() as int) =~= Seq::<u8>::empty());
        }
        append_bytes(&mut r, to);
        return r;
    }
    proof {
        assert(s@.skip(0) =~= s@);
        assert(r@ + replaced(s@, pat@, to@) =~= replaced(s@, pat@, to@));
    }
    let mut i: usize = 0;
    while i < s.len()
        invariant
            i <= s@.len(),
            pat@.len() >= 1,
            replaced(s@, pat@, to@) == r@ + replaced(s@.skip(i as int), pat@, to@),
        decreases s@.len() - i,
    {
        let ghost r0 = r@;
        let ghost rem = s@.skip(i as int);
        if has_pat_at(s, i, pat) {
            append_bytes(&mut r, to);
            proof {
                assert(rem.take(pat@.len() as int) =~= s@.subrange(
                    i as int,
                    i as int + pat@.len() as int,
                ));
                assert(rem.skip(pat@.len() as int) =~= s@.skip(i as int + pat@.len() as int));
                assert(replaced(rem, pat@, to@) == to@ + replaced(
                    s@.skip(i as int + pat@.len() as int),
                    pat@,
                    to@,
                ));
                assert(r0 + (to@ + replaced(s@.skip(i as int + pat@.len() as int), pat@, to@))
                    =~= (r0 + to@) + replaced(s@.skip(i as int + pat@.len() as int), pat@, to@));
            }
            i = i + pat.len();
        } else {
            r.push(s[i]);
            proof {
                if pat@.len() <= rem.len() && rem.take(pat@.len() as int) == pat@ {
                    assert(rem.take(pat@.len() as int) =~= s@.subrange(
                        i as int,
                        i as int + pat@.len() as int,
                    ));
                    assert(false);
                }
                assert(rem.skip(1) =~= s@.skip(i as int + 1));
                assert(rem[0] == s@[i as int]);
                assert(replaced(rem, pat@, to@) == seq![s@[i as int]] + replaced(
                    s@.skip(i as int + 1),
                    pat@,
                    to@,
                ));
                assert(r0 + (seq![s@[i as int]] + replaced(s@.skip(i as int + 1), pat@, to@)) =~= (
                r0 + seq![s@[i as int]]) + replaced(s@.skip(i as int + 1), pat@, to@));
                assert(r@ =~= r0 + seq![s@[i as int]]);
            }
            i = i + 1;
        }
    }
    proof {
        assert(s@.skip(s@.len() as int) =~= Seq::<u8>::empty());
        assert(r@ + Seq::<u8>::empty() =~= r@);
    }
    r
}

} // verus!
