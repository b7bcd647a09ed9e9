//! Dot-separated glob patterns over event types.
//!
//! A pattern and an event type are both cut at every `.` into segments. The
//! pattern `*` matches every event type; otherwise the two must have the same
//! number of segments, and each pattern segment must be `*` or equal to the
//! event type's segment at the same place.
use vstd::prelude::*;

verus! {

/// The separator between the segments of a pattern or an event type.
pub open spec fn dot() -> char {
    '.'
}

/// A segment that stands for any one segment.
pub open spec fn is_wildcard(seg: Seq<char>) -> bool {
    seg == seq!['*']
}

/// The pieces of `s` between occurrences of `sep`, in order, empty pieces
/// included: `k` separators give `k + 1` pieces, so there is always one at least.
pub open spec fn split_on(s: Seq<char>, sep: char) -> Seq<Seq<char>>
    decreases s.len(),
{
    if s.len() == 0 {
        seq![Seq::<char>::empty()]
    } else {
        let prev = split_on(s.drop_last(), sep);
        if s.last() == sep {
            prev.push(Seq::<char>::empty())
        } else {
            prev.update(prev.len() - 1, prev.last().push(s.last()))
        }
    }
}

/// The pieces written one after another with `sep` between each two.
pub open spec fn join_with(pieces: Seq<Seq<char>>, sep: char) -> Seq<char>
    decreases pieces.len(),
{
    if pieces.len() == 0 {
        Seq::<char>::empty()
    } else if pieces.len() == 1 {
        pieces[0]
    } else {
        join_with(pieces.drop_last(), sep).push(sep) + pieces.last()
    }
}

/// How many times `c` occurs in `s`.
pub open spec fn count_char(s: Seq<char>, c: char) -> nat
    decreases s.len(),
{
    if s.len() == 0 {
        0
    } else {
        count_char(s.drop_last(), c) + if s.last() == c {
            1nat
        } else {
            0nat
        }
    }
}

/// The segments of a pattern or an event type.
pub open spec fn segments(s: Seq<char>) -> Seq<Seq<char>> {
    split_on(s, dot())
}

/// Whether `pattern` matches `event_type`.
pub open spec fn glob_matches(pattern: Seq<char>, event_type: Seq<char>) -> bool {
    ||| is_wildcard(pattern)
    ||| {
        let ps = segments(pattern);
        let ts = segments(event_type);
        &&& ps.len() == ts.len()
        &&& forall|i: int| 0 <= i < ps.len() ==> is_wildcard(#[trigger] ps[i]) || ps[i] == ts[i]
    }
}

/// Returns true if `event_type` matches `pattern` using simple dot-separated glob.
///
/// - `"crop.*"` matches `"crop.planted"` and `"crop.harvested"`
/// - `"*"` matches everything
/// - `"conservation.violated"` matches exactly
pub fn matches_glob(pattern: &str, event_type: &str) -> (r: bool)
    ensures
        r == glob_matches(pattern@, event_type@),
        pattern@ == seq!['*'] ==> r,
        r && pattern@ != seq!['*'] ==> count_char(pattern@, '.') == count_char(event_type@, '.'),
{
    proof {
        lemma_glob_same_dots(pattern@, event_type@);
    }
    let pat_chars = chars_of(pattern);
    if pat_chars.len() == 1 && pat_chars[0] == '*' {
        assert(pattern@ =~= seq!['*']);
        return true;
    }
    let typ_chars = chars_of(event_type);
    let pat_parts = split_dots(&pat_chars);
    let typ_parts = split_dots(&typ_chars);
    let ghost ps = segments(pattern@);
    let ghost ts = segments(event_type@);
    assert(!is_wildcard(pattern@)) by {
        if is_wildcard(pattern@) {
            assert(pattern@.len() == 1 && pattern@[0] == '*');
        }
    }
    if pat_parts.len() != typ_parts.len() {
        assert(ps.len() != ts.len());
        return false;
    }
    let n: usize = pat_parts.len();
    for i in 0..n
        invariant
            n == pat_parts@.len(),
            n == typ_parts@.len(),
            n == ps.len(),
            n == ts.len(),
            ps == segments(pattern@),
            ts == segments(event_type@),
            !is_wildcard(pattern@),
            forall|k: int| 0 <= k < n ==> #[trigger] pat_parts@[k]@ == ps[k],
            forall|k: int| 0 <= k < n ==> #[trigger] typ_parts@[k]@ == ts[k],
            forall|k: int| 0 <= k < i ==> is_wildcard(#[trigger] ps[k]) || ps[k] == ts[k],
    {
        let p = &pat_parts[i];
        let t = &typ_parts[i];
        let star = p.len() == 1 && p[0] == '*';
        assert(star == is_wildcard(ps[i as int])) by {
            if is_wildcard(ps[i as int]) {
                assert(p@.len() == 1 && p@[0] == '*');
            }
            if star {
                assert(p@ =~= seq!['*']);
            }
        }
        if !star && !same_chars(p, t) {
            assert(!(is_wildcard(ps[i as int]) || ps[i as int] == ts[i as int]));
            assert(!glob_matches(pattern@, event_type@));
            return false;
        }
    }
    true
}

/// The characters of `s`, one per element.
fn chars_of(s: &str) -> (r: Vec<char>)
    ensures
        r@ == s@,
{
    let mut v: Vec<char> = Vec::new();
    for c in it: s.chars()
        invariant
            v@ == it.seq().take(it.index() as int),
    {
        v.push(c);
    }
    assert(v@ == s@);
    v
}

/// Whether two character vectors hold the same characters.
fn same_chars(a: &Vec<char>, b: &Vec<char>) -> (r: bool)
    ensures
        r == (a@ == b@),
{
    if a.len() != b.len() {
        return false;
    }
    for i in 0..a.len()
        invariant
            a@.len() == b@.len(),
            forall|k: int| 0 <= k < i ==> a@[k] == b@[k],
    {
        if a[i] != b[i] {
            return false;
        }
    }
    assert(a@ =~= b@);
    true
}

/// The segments of `s` between its dots.
fn split_dots(s: &Vec<char>) -> (r: Vec<Vec<char>>)
    ensures
        r@.len() == segments(s@).len(),
        forall|k: int| 0 <= k < r@.len() ==> #[trigger] r@[k]@ == segments(s@)[k],
{
    let mut done: Vec<Vec<char>> = Vec::new();
    let mut cur: Vec<char> = Vec::new();
    for i in 0..s.len()
        invariant
            done@.map_values(|v: Vec<char>| v@).push(cur@) == segments(s@.take(i as int)),
    {
        let c = s[i];
        let ghost before = done@.map_values(|v: Vec<char>| v@).push(cur@);
        assert(s@.take(i + 1).drop_last() =~= s@.take(i as int));
        assert(s@.take(i + 1).last() == c);
        if c == '.' {
            done.push(cur);
            cur = Vec::new();
            assert(done@.map_values(|v: Vec<char>| v@).push(cur@) =~= before.push(
                Seq::<char>::empty(),
            ));
        } else {
            cur.push(c);
            assert(done@.map_values(|v: Vec<char>| v@).push(cur@) =~= before.update(
                before.len() - 1,
                before.last().push(c),
            ));
        }
    }
    let ghost before = done@.map_values(|v: Vec<char>| v@).push(cur@);
    assert(s@.take(s@.len() as int) =~= s@);
    done.push(cur);
    assert(done@.map_values(|v: Vec<char>| v@) =~= before);
    assert forall|k: int| 0 <= k < done@.len() implies #[trigger] done@[k]@ == segments(s@)[k] by {
        assert(done@.map_values(|v: Vec<char>| v@)[k] == done@[k]@);
    }
    done
}

/// A split always has at least one piece.
proof fn lemma_split_nonempty(s: Seq<char>, sep: char)
    ensures
        split_on(s, sep).len() >= 1,
    decreases s.len(),
{
    if s.len() > 0 {
        lemma_split_nonempty(s.drop_last(), sep);
    }
}

/// Cutting `s` at every `sep` and writing the pieces back with `sep` between
/// them gives `s` again, and no piece holds `sep`.
pub proof fn lemma_split_join(s: Seq<char>, sep: char)
    ensures
        join_with(split_on(s, sep), sep) == s,
        forall|i: int|
            0 <= i < split_on(s, sep).len() ==> !(#[trigger] split_on(s, sep)[i]).contains(sep),
    decreases s.len(),
{
    if s.len() == 0 {
        assert(split_on(s, sep) =~= seq![Seq::<char>::empty()]);
        assert(join_with(split_on(s, sep), sep) =~= s);
    } else {
        let t = s.drop_last();
        let c = s.last();
        let prev = split_on(t, sep);
        lemma_split_join(t, sep);
        lemma_split_nonempty(t, sep);
        let cur = split_on(s, sep);
        if c == sep {
            assert(cur == prev.push(Seq::<char>::empty()));
            assert(cur.drop_last() =~= prev);
            assert(join_with(cur, sep) =~= s);
            assert forall|i: int| 0 <= i < cur.len() implies !(#[trigger] cur[i]).contains(sep) by {
                if i < prev.len() {
                    assert(cur[i] == prev[i]);
                }
            }
        } else {
            let last = prev.last().push(c);
            assert(cur == prev.update(prev.len() - 1, last));
            if prev.len() == 1 {
                assert(join_with(prev, sep) == prev[0]);
                assert(join_with(cur, sep) == cur[0]);
                assert(s =~= t.push(c));
            } else {
                assert(cur.drop_last() =~= prev.drop_last());
                assert(join_with(cur, sep) == join_with(prev.drop_last(), sep).push(sep) + last);
                assert(join_with(prev, sep) == join_with(prev.drop_last(), sep).push(sep)
                    + prev.last());
                assert(join_with(cur, sep) =~= join_with(prev, sep).push(c));
            }
            assert forall|i: int| 0 <= i < cur.len() implies !(#[trigger] cur[i]).contains(sep) by {
                if i < prev.len() - 1 {
                    assert(cur[i] == prev[i]);
                } else {
                    assert(cur[i] == last);
                    assert(!prev[i].contains(sep));
                    if last.contains(sep) {
                        let k: int = choose|k: int| 0 <= k < last.len() && last[k] == sep;
                        if k < prev[i].len() {
                            assert(prev[i][k] == sep);
                        }
                    }
                }
            }
        }
    }
}

/// The pattern `*` matches every event type.
pub proof fn lemma_star_matches_everything(event_type: Seq<char>)
    ensures
        glob_matches(seq!['*'], event_type),
{
}

/// Every pattern matches the event type written the same way.
pub proof fn lemma_pattern_matches_itself(pattern: Seq<char>)
    ensures
        glob_matches(pattern, pattern),
{
}

/// A pattern none of whose segments is `*` matches exactly one event type:
/// the one written the same way.
pub proof fn lemma_literal_pattern_matches_only_itself(pattern: Seq<char>, event_type: Seq<char>)
    requires
        forall|i: int|
            0 <= i < segments(pattern).len() ==> !is_wildcard(#[trigger] segments(pattern)[i]),
    ensures
        glob_matches(pattern, event_type) <==> pattern == event_type,
{
    let ps = segments(pattern);
    let ts = segments(event_type);
    if glob_matches(pattern, event_type) {
        if is_wildcard(pattern) {
            assert(pattern =~= seq!['*']);
            reveal_with_fuel(split_on, 2);
            assert(ps =~= seq![seq!['*']]);
            assert(is_wildcard(ps[0]));
        } else {
            assert(ps =~= ts) by {
                assert forall|i: int| 0 <= i < ps.len() implies ps[i] == ts[i] by {
                    assert(!is_wildcard(ps[i]));
                }
            }
            lemma_split_join(pattern, dot());
            lemma_split_join(event_type, dot());
        }
    }
}

/// `k` separators give `k + 1` pieces.
pub proof fn lemma_split_len(s: Seq<char>, sep: char)
    ensures
        split_on(s, sep).len() == count_char(s, sep) + 1,
    decreases s.len(),
{
    if s.len() > 0 {
        lemma_split_len(s.drop_last(), sep);
        lemma_split_nonempty(s.drop_last(), sep);
    }
}

/// Appending characters other than the separator extends the last piece.
proof fn lemma_split_append_plain(x: Seq<char>, y: Seq<char>, sep: char)
    requires
        !y.contains(sep),
    ensures
        split_on(x + y, sep) == split_on(x, sep).update(
            split_on(x, sep).len() - 1,
            split_on(x, sep).last() + y,
        ),
    decreases y.len(),
{
    lemma_split_nonempty(x, sep);
    let sx = split_on(x, sep);
    if y.len() == 0 {
        assert(x + y =~= x);
        assert(sx.last() + y =~= sx.last());
        assert(sx.update(sx.len() - 1, sx.last() + y) =~= sx);
    } else {
        let y0 = y.drop_last();
        let c = y.last();
        assert(!y0.contains(sep)) by {
            if y0.contains(sep) {
                let k: int = choose|k: int| 0 <= k < y0.len() && y0[k] == sep;
                assert(y[k] == sep);
            }
        }
        assert(c != sep) by {
            assert(y[y.len() - 1] == c);
        }
        lemma_split_append_plain(x, y0, sep);
        assert((x + y).drop_last() =~= x + y0);
        assert((x + y).last() == c);
        let prev = split_on(x + y0, sep);
        assert(prev.len() == sx.len());
        assert(prev.last() == sx.last() + y0);
        assert((sx.last() + y0).push(c) =~= sx.last() + y);
        assert(split_on(x + y, sep) =~= sx.update(sx.len() - 1, sx.last() + y));
    }
}

/// Cutting pieces that hold no separator, written with the separator between
/// them, gives the pieces back.
pub proof fn lemma_split_of_join(pieces: Seq<Seq<char>>, sep: char)
    requires
        pieces.len() >= 1,
        forall|i: int| 0 <= i < pieces.len() ==> !(#[trigger] pieces[i]).contains(sep),
    ensures
        split_on(join_with(pieces, sep), sep) == pieces,
    decreases pieces.len(),
{
    let last = pieces.last();
    assert(!last.contains(sep)) by {
        assert(pieces[pieces.len() - 1] == last);
    }
    if pieces.len() == 1 {
        lemma_split_append_plain(Seq::<char>::empty(), last, sep);
        assert(Seq::<char>::empty() + last =~= last);
        assert(split_on(Seq::<char>::empty(), sep) =~= seq![Seq::<char>::empty()]);
        assert(join_with(pieces, sep) == pieces[0]);
        assert(split_on(last, sep) =~= pieces);
    } else {
        let init = pieces.drop_last();
        assert(forall|i: int| 0 <= i < init.len() ==> init[i] == pieces[i]);
        lemma_split_of_join(init, sep);
        let j = join_with(init, sep);
        let jp = j.push(sep);
        assert(jp.drop_last() =~= j);
        assert(jp.last() == sep);
        assert(split_on(jp, sep) == init.push(Seq::<char>::empty()));
        lemma_split_append_plain(jp, last, sep);
        assert(Seq::<char>::empty() + last =~= last);
        assert(init.push(Seq::<char>::empty()).update(init.len() as int, last) =~= pieces);
    }
}

/// A pattern other than `*` matches only event types with as many dots, so
/// with as many segments: a `*` segment stands for exactly one segment.
pub proof fn lemma_glob_same_dots(pattern: Seq<char>, event_type: Seq<char>)
    ensures
        glob_matches(pattern, event_type) && pattern != seq!['*'] ==> count_char(pattern, '.')
            == count_char(event_type, '.'),
        pattern == seq!['*'] ==> glob_matches(pattern, event_type),
{
    lemma_split_len(pattern, dot());
    lemma_split_len(event_type, dot());
}

/// What a pattern matches, segment by segment: for patterns and event types
/// written as dot-free segments joined by dots, a pattern other than `*`
/// matches exactly the event types with as many segments, each equal to the
/// pattern's segment at its place unless that one is `*`.
pub proof fn law_glob_matches_segmentwise(ps: Seq<Seq<char>>, ts: Seq<Seq<char>>)
    requires
        ps.len() >= 1,
        ts.len() >= 1,
        forall|i: int| 0 <= i < ps.len() ==> !(#[trigger] ps[i]).contains('.'),
        forall|i: int| 0 <= i < ts.len() ==> !(#[trigger] ts[i]).contains('.'),
        join_with(ps, '.') != seq!['*'],
    ensures
        glob_matches(join_with(ps, '.'), join_with(ts, '.')) <==> (ps.len() == ts.len() && forall|
            i: int,
        |
            0 <= i < ps.len() ==> #[trigger] ps[i] == seq!['*'] || ps[i] == ts[i]),
{
    lemma_split_of_join(ps, '.');
    lemma_split_of_join(ts, '.');
}

} // verus!
