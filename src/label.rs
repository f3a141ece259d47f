//! The text of a node: its name and its locations, sorted case-insensitively
//! by file; a merged node lists each of its names with its own locations.
use crate::node::{merge_mark, LocationView, NodeView, Location, Node};
use crate::text::chars_of;
use vstd::prelude::*;
use vstd::string::*;

verus! {

/// What `str::to_lowercase` makes of a text.
pub uninterp spec fn lower_of(s: Seq<char>) -> Seq<char>;

/// Relies on `str::to_lowercase`: the lowercase form of `s`, which depends on
/// its characters alone.
#[verifier::external_body]
fn lowercase(s: &str) -> (r: String)
    ensures
        r@ == lower_of(s@),
{
    s.to_lowercase()
}

/// Relies on `String::push`: `c` is appended.
#[verifier::external_body]
pub(crate) fn push_char(s: &mut String, c: char)
    ensures
        final(s)@ == old(s)@.push(c),
{
    s.push(c)
}

/// The lowercase form of `s`, as characters.
pub fn lower_chars(s: &str) -> (r: Vec<char>)
    ensures
        r@ == lower_of(s@),
{
    let l = lowercase(s);
    chars_of(l.as_str())
}

/// Whether `a` comes before `b` in lexicographic order of code points, the
/// order of `String` comparison.
pub open spec fn text_lt(a: Seq<char>, b: Seq<char>) -> bool
    decreases a.len(),
{
    if b.len() == 0 {
        false
    } else if a.len() == 0 {
        true
    } else if a[0] != b[0] {
        (a[0] as u32) < (b[0] as u32)
    } else {
        text_lt(a.skip(1), b.skip(1))
    }
}

/// Whether `a` comes before `b`.
pub fn text_less(a: &Vec<char>, b: &Vec<char>) -> (r: bool)
    ensures
        r == text_lt(a@, b@),
{
    let mut i: usize = 0;
    proof {
        assert(a@.skip(0) =~= a@);
        assert(b@.skip(0) =~= b@);
    }
    while i < a.len() && i < b.len()
        invariant
            0 <= i <= a@.len(),
            i <= b@.len(),
            forall|j: int| 0 <= j < i ==> a@[j] == b@[j],
            text_lt(a@, b@) == text_lt(a@.skip(i as int), b@.skip(i as int)),
        decreases a.len() - i,
    {
        if a[i] != b[i] {
            return (a[i] as u32) < (b[i] as u32);
        }
        proof {
            assert(a@.skip(i as int).skip(1) =~= a@.skip(i + 1));
            assert(b@.skip(i as int).skip(1) =~= b@.skip(i + 1));
        }
        i = i + 1;
    }
    i < b.len()
}

/// `sorted` with position `x` inserted after every position whose key does
/// not come after `x`'s: one step of a stable insertion sort.
pub open spec fn insert_by_key(keys: Seq<Seq<char>>, sorted: Seq<int>, x: int) -> Seq<int>
    decreases sorted.len(),
{
    if sorted.len() == 0 {
        seq![x]
    } else if !text_lt(keys[x], keys[sorted.last()]) {
        sorted.push(x)
    } else {
        insert_by_key(keys, sorted.drop_last(), x).push(sorted.last())
    }
}

/// The positions `0..n` of `keys`, stably sorted by key.
pub open spec fn sorted_order(keys: Seq<Seq<char>>, n: int) -> Seq<int>
    decreases n,
{
    if n <= 0 {
        Seq::empty()
    } else {
        insert_by_key(keys, sorted_order(keys, n - 1), n - 1)
    }
}

/// The positions of `keys`, stably sorted by key.
pub fn sort_order(keys: &Vec<Vec<char>>) -> (r: Vec<usize>)
    ensures
        r@.map_values(|i: usize| i as int) == sorted_order(
            keys@.map_values(|k: Vec<char>| k@),
            keys@.len() as int,
        ),
        forall|j: int| 0 <= j < r@.len() ==> (#[trigger] r@[j]) < keys@.len(),
{
    let ghost ks = keys@.map_values(|k: Vec<char>| k@);
    let mut r: Vec<usize> = Vec::new();
    proof {
        assert(r@.map_values(|i: usize| i as int) =~= sorted_order(ks, 0));
    }
    for n in 0..keys.len()
        invariant
            ks == keys@.map_values(|k: Vec<char>| k@),
            r@.map_values(|i: usize| i as int) == sorted_order(ks, n as int),
            forall|j: int| 0 <= j < r@.len() ==> (#[trigger] r@[j]) < n,
    {
        let ghost before = r@.map_values(|i: usize| i as int);
        let ghost old_r = r;
        r.push(n);
        let mut j: usize = r.len() - 1;
        proof {
            assert(before.subrange(0, j as int) =~= before);
            assert(before.subrange(j as int, before.len() as int) =~= Seq::<int>::empty());
            assert(insert_by_key(ks, before, n as int) =~= insert_by_key(ks, before, n as int)
                + Seq::<int>::empty());
            assert(r@.subrange(0, j as int) =~= r@.drop_last());
            assert(r@.drop_last() =~= old_r@);
        }
        while j > 0 && text_less(&keys[n], &keys[r[j - 1]])
            invariant
                ks == keys@.map_values(|k: Vec<char>| k@),
                n < keys@.len(),
                0 <= j < r@.len(),
                r@.len() == before.len() + 1,
                r@[j as int] == n,
                forall|m: int| 0 <= m < r@.len() ==> (#[trigger] r@[m]) <= n,
                r@.subrange(0, j as int).map_values(|i: usize| i as int) == before.subrange(
                    0,
                    j as int,
                ),
                r@.subrange(j + 1, r@.len() as int).map_values(|i: usize| i as int)
                    == before.subrange(j as int, before.len() as int),
                insert_by_key(ks, before, n as int) == insert_by_key(
                    ks,
                    before.subrange(0, j as int),
                    n as int,
                ) + before.subrange(j as int, before.len() as int),
            decreases j,
        {
            let prev = r[j - 1];
            r.set(j - 1, n);
            r.set(j, prev);
            proof {
                let b = before.subrange(0, j as int);
                assert(b.last() == prev as int);
                assert(b.drop_last() =~= before.subrange(0, j - 1));
                assert(before.subrange(j - 1, before.len() as int) =~= seq![prev as int]
                    + before.subrange(j as int, before.len() as int));
                assert(r@.subrange(0, j - 1).map_values(|i: usize| i as int) =~= before.subrange(
                    0,
                    j - 1,
                ));
                assert(r@.subrange(j as int, r@.len() as int).map_values(|i: usize| i as int)
                    =~= before.subrange(j - 1, before.len() as int));
                assert(insert_by_key(ks, b, n as int) == insert_by_key(ks, b.drop_last(), n as int).push(
                    prev as int,
                ));
                assert(insert_by_key(ks, b.drop_last(), n as int).push(prev as int)
                    + before.subrange(j as int, before.len() as int) =~= insert_by_key(
                    ks,
                    b.drop_last(),
                    n as int,
                ) + before.subrange(j - 1, before.len() as int));
            }
            j = j - 1;
        }
        proof {
            let b = before.subrange(0, j as int);
            if j > 0 {
                assert(!text_lt(ks[n as int], ks[b.last()]));
                assert(insert_by_key(ks, b, n as int) == b.push(n as int));
            } else {
                assert(b.len() == 0);
            }
            assert(r@.map_values(|i: usize| i as int) =~= insert_by_key(ks, b, n as int)
                + before.subrange(j as int, before.len() as int));
            assert(before.subrange(0, before.len() as int) =~= before);
        }
    }
    r
}


/// The decimal digit `d`.
pub open spec fn digit(d: int) -> char {
    seq!['0', '1', '2', '3', '4', '5', '6', '7', '8', '9'][d]
}

/// `n` in decimal.
pub open spec fn decimal(n: nat) -> Seq<char>
    decreases n,
{
    if n < 10 {
        seq![digit(n as int)]
    } else {
        decimal(n / 10).push(digit((n % 10) as int))
    }
}

/// `[file +row]`.
pub open spec fn location_text(l: LocationView) -> Seq<char> {
    seq!['['] + l.file + seq![' ', '+'] + decimal(l.row) + seq![']']
}

/// The texts, one space between each two.
pub open spec fn joined(ts: Seq<Seq<char>>) -> Seq<char>
    decreases ts.len(),
{
    if ts.len() == 0 {
        Seq::empty()
    } else if ts.len() == 1 {
        ts[0]
    } else {
        joined(ts.drop_last()) + seq![' '] + ts.last()
    }
}

/// The lowercase file names of `locs`.
pub open spec fn file_keys(locs: Seq<LocationView>) -> Seq<Seq<char>> {
    locs.map_values(|l: LocationView| lower_of(l.file))
}

/// `locs` stably sorted by lowercase file name.
pub open spec fn sorted_locations(locs: Seq<LocationView>) -> Seq<LocationView> {
    sorted_order(file_keys(locs), locs.len() as int).map_values(|i: int| locs[i])
}

/// The texts of `locs`, sorted by lowercase file name and joined.
pub open spec fn locations_text(locs: Seq<LocationView>) -> Seq<char> {
    joined(sorted_locations(locs).map_values(|l: LocationView| location_text(l)))
}

/// The parts of `s` between occurrences of `c`.
pub open spec fn split_on(s: Seq<char>, c: char) -> Seq<Seq<char>>
    decreases s.len(),
{
    if s.len() == 0 {
        seq![Seq::empty()]
    } else {
        let p = split_on(s.drop_last(), c);
        if s.last() == c {
            p.push(Seq::empty())
        } else {
            p.update(p.len() - 1, p.last().push(s.last()))
        }
    }
}

/// The first position from `i` on of a separator location, or the end.
pub open spec fn next_separator(locs: Seq<LocationView>, i: int) -> int
    decreases locs.len() - i,
{
    if i >= locs.len() || i < 0 {
        i
    } else if locs[i].file.len() == 0 {
        i
    } else {
        next_separator(locs, i + 1)
    }
}

/// The lines of a merged node from its `k`-th name on, whose location group
/// starts at `i`.
pub open spec fn merged_lines(parts: Seq<Seq<char>>, locs: Seq<LocationView>, k: int, i: int) -> Seq<char>
    decreases parts.len() - k,
{
    if k >= parts.len() || k < 0 {
        Seq::empty()
    } else {
        let next = next_separator(locs, i);
        let group = if 0 <= i <= locs.len() {
            locs.subrange(i, next)
        } else {
            Seq::empty()
        };
        parts[k] + seq![' '] + locations_text(group) + (if next < locs.len() {
            seq!['\n']
        } else {
            Seq::empty()
        }) + merged_lines(parts, locs, k + 1, next + 1)
    }
}

/// The text of a node: its name and its sorted locations; for a merged node,
/// one line per name with that name's own locations.
pub open spec fn label(n: NodeView) -> Seq<char> {
    if !n.name.contains(merge_mark()) {
        if n.locations.len() == 0 {
            n.name
        } else {
            n.name + seq![' '] + locations_text(n.locations)
        }
    } else {
        merged_lines(split_on(n.name, merge_mark()), n.locations, 0, 0)
    }
}

/// Appends `n` in decimal.
fn push_decimal(s: &mut String, n: usize)
    ensures
        final(s)@ == old(s)@ + decimal(n as nat),
    decreases n,
{
    let digits: [char; 10] = ['0', '1', '2', '3', '4', '5', '6', '7', '8', '9'];
    if n >= 10 {
        push_decimal(s, n / 10);
    }
    push_char(s, digits[n % 10]);
    proof {
        assert(digits@ =~= seq!['0', '1', '2', '3', '4', '5', '6', '7', '8', '9']);
        if n >= 10 {
            assert(decimal(n as nat) =~= decimal((n / 10) as nat).push(digit((n % 10) as int)));
        }
    }
}

impl Location {
    /// `[file +row]`.
    pub fn to_string(&self) -> (r: String)
        ensures
            r@ == location_text(self@),
    {
        let mut s = String::new();
        push_char(&mut s, '[');
        s.append(self.file.as_str());
        push_char(&mut s, ' ');
        push_char(&mut s, '+');
        push_decimal(&mut s, self.row);
        push_char(&mut s, ']');
        proof {
            assert(s@ =~= location_text(self@));
        }
        s
    }
}

/// Appends the texts of `locs[lo..hi]`, sorted by lowercase file name and
/// joined by spaces.
fn push_locations(s: &mut String, locs: &Vec<Location>, lo: usize, hi: usize)
    requires
        lo <= hi <= locs@.len(),
    ensures
        final(s)@ == old(s)@ + locations_text(
            crate::node::views(locs@).subrange(lo as int, hi as int),
        ),
{
    let ghost group = crate::node::views(locs@).subrange(lo as int, hi as int);
    let mut keys: Vec<Vec<char>> = Vec::new();
    for i in lo..hi
        invariant
            lo <= hi <= locs@.len(),
            group == crate::node::views(locs@).subrange(lo as int, hi as int),
            keys@.len() == i - lo,
            forall|j: int| 0 <= j < keys@.len() ==> (#[trigger] keys@[j])@ == file_keys(group)[j],
    {
        keys.push(lower_chars(locs[i].file.as_str()));
    }
    proof {
        assert(keys@.map_values(|k: Vec<char>| k@) =~= file_keys(group));
    }
    let order = sort_order(&keys);
    let ghost texts = sorted_locations(group).map_values(|l: LocationView| location_text(l));
    let ghost start = s@;
    for j in 0..order.len()
        invariant
            lo <= hi <= locs@.len(),
            group == crate::node::views(locs@).subrange(lo as int, hi as int),
            keys@.len() == hi - lo,
            order@.len() == texts.len(),
            texts == sorted_locations(group).map_values(|l: LocationView| location_text(l)),
            order@.map_values(|i: usize| i as int) == sorted_order(file_keys(group), group.len() as int),
            forall|m: int| 0 <= m < order@.len() ==> (#[trigger] order@[m]) < keys@.len(),
            s@ == start + joined(texts.take(j as int)),
    {
        let idx = order[j];
        if j > 0 {
            push_char(s, ' ');
        }
        let t = locs[lo + idx].to_string();
        s.append(t.as_str());
        proof {
            assert(order@.map_values(|i: usize| i as int)[j as int] == idx as int);
            assert(t@ == texts[j as int]);
            assert(texts.take(j + 1).drop_last() =~= texts.take(j as int));
            if j > 0 {
                assert(s@ =~= start + joined(texts.take(j + 1)));
            } else {
                assert(texts.take(1) =~= seq![texts[0]]);
                assert(s@ =~= start + joined(texts.take(j + 1)));
            }
        }
    }
    proof {
        assert(texts.take(texts.len() as int) =~= texts);
    }
}

impl Node {
    /// The node's text: its name and its locations sorted by lowercase file
    /// name; a merged node gives one line per name, each with the locations of
    /// its own group.
    pub fn to_string(&self) -> (r: String)
        ensures
            r@ == label(self@),
    {
        let len = self.location.len();
        if !self.is_undefined() {
            let mut s = self.name.clone();
            if len > 0 {
                push_char(&mut s, ' ');
                push_locations(&mut s, &self.location, 0, len);
                proof {
                    assert(crate::node::views(self.location@).subrange(0, len as int)
                        =~= self@.locations);
                }
            }
            return s;
        }
        let parts = split_chars(self.name.as_str(), '#');
        let mut s = String::new();
        let mut i: usize = 0;
        let ghost locs = self@.locations;
        let ghost ps = parts@.map_values(|p: Vec<char>| p@);
        for k in 0..parts.len()
            invariant
                len == locs.len(),
                locs == self@.locations,
                ps == parts@.map_values(|p: Vec<char>| p@),
                ps == split_on(self@.name, merge_mark()),
                i <= len,
                s@ + merged_lines(ps, locs, k as int, i as int) == merged_lines(ps, locs, 0, 0),
        {
            let mut next = i;
            while next < len && !self.location[next].is_empty()
                invariant
                    len == locs.len(),
                    locs == self@.locations,
                    i <= next <= len,
                    next_separator(locs, i as int) == next_separator(locs, next as int),
                decreases len - next,
            {
                next = next + 1;
            }
            let ghost before = s@;
            push_chars(&mut s, &parts[k]);
            push_char(&mut s, ' ');
            push_locations(&mut s, &self.location, i, next);
            if next < len {
                push_char(&mut s, '\n');
            }
            proof {
                assert(parts@[k as int]@ == ps[k as int]);
                let group = if 0 <= i <= locs.len() {
                    locs.subrange(i as int, next as int)
                } else {
                    Seq::empty()
                };
                assert(s@ =~= before + (ps[k as int] + seq![' '] + locations_text(group) + (
                if next < locs.len() {
                    seq!['\n']
                } else {
                    Seq::empty()
                })));
            }
            i = if next < len { next + 1 } else { len };
            proof {
                assert(merged_lines(ps, locs, k + 1, i as int) == merged_lines(
                    ps,
                    locs,
                    k + 1,
                    next + 1,
                )) by {
                    if next >= len {
                        lemma_merged_lines_past_end(ps, locs, k + 1, i as int, next + 1);
                    }
                }
            }
        }
        proof {
            assert(s@ + merged_lines(ps, locs, parts@.len() as int, i as int) =~= s@);
        }
        s
    }
}

/// Past the last location, where the next group starts makes no difference.
proof fn lemma_merged_lines_past_end(
    parts: Seq<Seq<char>>,
    locs: Seq<LocationView>,
    k: int,
    i: int,
    j: int,
)
    requires
        i >= locs.len(),
        j >= locs.len(),
    ensures
        merged_lines(parts, locs, k, i) == merged_lines(parts, locs, k, j),
    decreases parts.len() - k,
{
    if 0 <= k < parts.len() {
        lemma_merged_lines_past_end(parts, locs, k + 1, i + 1, j + 1);
        assert(locs.subrange(locs.len() as int, locs.len() as int) =~= Seq::<LocationView>::empty());
    }
}

/// Appends the characters of `cs`.
pub(crate) fn push_chars(s: &mut String, cs: &Vec<char>)
    ensures
        final(s)@ == old(s)@ + cs@,
{
    let ghost start = s@;
    for i in 0..cs.len()
        invariant
            s@ == start + cs@.take(i as int),
    {
        push_char(s, cs[i]);
        proof {
            assert(cs@.take(i + 1) =~= cs@.take(i as int).push(cs@[i as int]));
        }
    }
    proof {
        assert(cs@.take(cs@.len() as int) =~= cs@);
    }
}

/// The parts of `s` between occurrences of `c`.
pub fn split_chars(s: &str, c: char) -> (r: Vec<Vec<char>>)
    ensures
        r@.map_values(|p: Vec<char>| p@) == split_on(s@, c),
{
    let cs = chars_of(s);
    let mut r: Vec<Vec<char>> = Vec::new();
    r.push(Vec::new());
    proof {
        assert(cs@.take(0) =~= Seq::<char>::empty());
        assert(r@.map_values(|p: Vec<char>| p@) =~= split_on(cs@.take(0), c));
    }
    for i in 0..cs.len()
        invariant
            cs@ == s@,
            r@.len() >= 1,
            r@.map_values(|p: Vec<char>| p@) == split_on(cs@.take(i as int), c),
    {
        proof {
            assert(cs@.take(i + 1).drop_last() =~= cs@.take(i as int));
        }
        let ghost before = r@.map_values(|p: Vec<char>| p@);
        if cs[i] == c {
            r.push(Vec::new());
            proof {
                assert(r@.map_values(|p: Vec<char>| p@) =~= before.push(Seq::empty()));
            }
        } else {
            let last = r.len() - 1;
            let mut part = Vec::new();
            std::mem::swap(&mut part, &mut r[last]);
            part.push(cs[i]);
            r.set(last, part);
            proof {
                assert(r@.map_values(|p: Vec<char>| p@) =~= before.update(
                    last as int,
                    before.last().push(cs@[i as int]),
                ));
            }
        }
    }
    proof {
        assert(cs@.take(cs@.len() as int) =~= cs@);
    }
    r
}

} // verus!
