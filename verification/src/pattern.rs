//! The pattern finder: a lazy search for all the places where one string
//! occurs in another, by the Knuth-Morris-Pratt algorithm over indexed forms.
use crate::indexed::IndexedString;
use crate::string::lemma_valid_len;
use crate::string::DynamicString;
use vstd::prelude::*;

verus! {

/// `pattern` occurs in `text` at position `at`.
pub open spec fn occurs(text: Seq<u16>, pattern: Seq<u16>, at: int) -> bool {
    &&& 0 <= at
    &&& at + pattern.len() <= text.len()
    &&& text.subrange(at, at + pattern.len()) == pattern
}

/// The positions from `from` on, and before the end of `text`, at which
/// `pattern` occurs in `text`, ascending.
pub open spec fn occurrences(text: Seq<u16>, pattern: Seq<u16>, from: nat) -> Seq<usize>
    decreases text.len() - from,
{
    if from >= text.len() || from + pattern.len() > text.len() {
        Seq::empty()
    } else {
        let rest = occurrences(text, pattern, from + 1);
        if occurs(text, pattern, from as int) {
            seq![from as usize] + rest
        } else {
            rest
        }
    }
}

/// The numbers from `from` up to `to`, `to` left out.
pub open spec fn run(from: nat, to: nat) -> Seq<usize> {
    if from < to {
        Seq::new((to - from) as nat, |i: int| (from + i) as usize)
    } else {
        Seq::empty()
    }
}

/// What a search for `pattern` in `text` yields. An empty pattern is found at
/// every position of a text that has one, and once in the empty text; any
/// other pattern wherever it occurs.
pub open spec fn finds(text: Seq<u16>, pattern: Seq<u16>) -> Seq<usize> {
    if pattern.len() == 0 {
        if text.len() == 0 {
            seq![0usize]
        } else {
            run(0, text.len())
        }
    } else {
        occurrences(text, pattern, 0)
    }
}

/// Every position of `found` leaves room for `width` code units in a text
/// of `len` code units, and lies before the end of the text.
pub open spec fn within(found: Seq<usize>, width: nat, len: nat) -> bool {
    forall|k: int| 0 <= k < found.len() ==> #[trigger] found[k] + width <= len && found[k] < len
}

/// The occurrences from a position on begin at that position or later, leave
/// room for the pattern, and are places where the pattern occurs.
pub proof fn lemma_occurrences_sound(text: Seq<u16>, pattern: Seq<u16>, from: nat)
    requires
        text.len() <= usize::MAX,
    ensures
        forall|k: int|
            0 <= k < occurrences(text, pattern, from).len() ==> {
                &&& from <= #[trigger] occurrences(text, pattern, from)[k]
                &&& occurs(text, pattern, occurrences(text, pattern, from)[k] as int)
                &&& occurrences(text, pattern, from)[k] < text.len()
            },
    decreases text.len() - from,
{
    if !(from >= text.len() || from + pattern.len() > text.len()) {
        lemma_occurrences_sound(text, pattern, from + 1);
        let found = occurrences(text, pattern, from);
        let rest = occurrences(text, pattern, from + 1);
        assert forall|k: int| 0 <= k < found.len() implies {
            &&& from <= #[trigger] found[k]
            &&& occurs(text, pattern, found[k] as int)
            &&& found[k] < text.len()
        } by {
            if occurs(text, pattern, from as int) {
                if k > 0 {
                    assert(found[k] == rest[k - 1]);
                }
            } else {
                assert(found[k] == rest[k]);
            }
        }
    }
}

/// The occurrences from a position on hold every place at that position or
/// later, and before the end of the text, where the pattern occurs.
pub proof fn lemma_occurrences_complete(text: Seq<u16>, pattern: Seq<u16>, from: nat, at: nat)
    requires
        text.len() <= usize::MAX,
        from <= at < text.len(),
        occurs(text, pattern, at as int),
    ensures
        occurrences(text, pattern, from).contains(at as usize),
    decreases at - from,
{
    if from < at {
        lemma_occurrences_complete(text, pattern, from + 1, at);
        let rest = occurrences(text, pattern, from + 1);
        let k = choose|k: int| 0 <= k < rest.len() && rest[k] == at as usize;
        if occurs(text, pattern, from as int) {
            assert(occurrences(text, pattern, from)[k + 1] == at as usize);
        } else {
            assert(occurrences(text, pattern, from)[k] == at as usize);
        }
    } else {
        assert(occurrences(text, pattern, from)[0] == at as usize);
    }
}

/// The occurrences from a position on ascend strictly.
pub proof fn lemma_occurrences_ascend(text: Seq<u16>, pattern: Seq<u16>, from: nat)
    requires
        text.len() <= usize::MAX,
    ensures
        forall|i: int, j: int|
            0 <= i < j < occurrences(text, pattern, from).len() ==> occurrences(
                text,
                pattern,
                from,
            )[i] < occurrences(text, pattern, from)[j],
    decreases text.len() - from,
{
    if !(from >= text.len() || from + pattern.len() > text.len()) {
        lemma_occurrences_ascend(text, pattern, from + 1);
        lemma_occurrences_sound(text, pattern, from + 1);
        let found = occurrences(text, pattern, from);
        let rest = occurrences(text, pattern, from + 1);
        assert forall|i: int, j: int| 0 <= i < j < found.len() implies found[i] < found[j] by {
            if occurs(text, pattern, from as int) {
                assert(found[j] == rest[j - 1]);
                if i > 0 {
                    assert(found[i] == rest[i - 1]);
                }
            } else {
                assert(found[i] == rest[i]);
                assert(found[j] == rest[j]);
            }
        }
    }
}

/// What a search yields lies within the text, with room for the pattern.
pub proof fn lemma_finds_within(text: Seq<u16>, pattern: Seq<u16>)
    requires
        text.len() <= usize::MAX,
    ensures
        within(finds(text, pattern), pattern.len(), text.len()) || (text.len() == 0
            && pattern.len() == 0),
{
    if pattern.len() > 0 {
        lemma_occurrences_sound(text, pattern, 0);
    }
}

/// The first `k` code units of `pattern` are also the last `k` of its first
/// `n`, and `k` is less than `n`: a border of that prefix.
pub open spec fn is_border(pattern: Seq<u16>, n: int, k: int) -> bool {
    &&& 0 <= k < n <= pattern.len()
    &&& pattern.subrange(0, k) == pattern.subrange(n - k, n)
}

/// `table[m]` is the length of the longest border of the first `m + 1` code
/// units of `pattern`, for every `m`.
pub open spec fn is_lps(pattern: Seq<u16>, table: Seq<usize>) -> bool {
    &&& table.len() == pattern.len()
    &&& forall|m: int| 0 <= m < table.len() ==> is_border(pattern, m + 1, #[trigger] table[m] as int)
    &&& forall|n: int, k: int|
        1 <= n <= table.len() && #[trigger] is_border(pattern, n, k) ==> k <= table[n - 1]
}

/// The `j` code units of `text` before position `i` are the first `j` of `pattern`.
pub open spec fn aligned(text: Seq<u16>, pattern: Seq<u16>, i: int, j: int) -> bool {
    &&& 0 <= j <= i <= text.len()
    &&& j <= pattern.len()
    &&& text.subrange(i - j, i) == pattern.subrange(0, j)
}

/// A border of a prefix, shortened by one, is a border of the prefix
/// shortened by one, and the code units that were dropped are the same.
proof fn lemma_border_shrink(pattern: Seq<u16>, n: int, k: int)
    requires
        is_border(pattern, n + 1, k),
        k >= 1,
    ensures
        is_border(pattern, n, k - 1),
        pattern[k - 1] == pattern[n],
{
    let a = pattern.subrange(0, k);
    let b = pattern.subrange(n + 1 - k, n + 1);
    assert(a[k - 1] == b[k - 1]);
    assert forall|x: int| 0 <= x < k - 1 implies #[trigger] pattern.subrange(0, k - 1)[x] == pattern.subrange(
        n - (k - 1),
        n,
    )[x] by {
        assert(a[x] == b[x]);
    }
    assert(pattern.subrange(0, k - 1) =~= pattern.subrange(n - (k - 1), n));
}

/// A border of a prefix grows by one where the next code units agree.
proof fn lemma_border_extend(pattern: Seq<u16>, n: int, k: int)
    requires
        is_border(pattern, n, k),
        n < pattern.len(),
        pattern[k] == pattern[n],
    ensures
        is_border(pattern, n + 1, k + 1),
{
    let a = pattern.subrange(0, k);
    let b = pattern.subrange(n - k, n);
    assert forall|x: int| 0 <= x < k + 1 implies #[trigger] pattern.subrange(0, k + 1)[x] == pattern.subrange(
        n - k,
        n + 1,
    )[x] by {
        if x < k {
            assert(a[x] == b[x]);
        }
    }
    assert(pattern.subrange(0, k + 1) =~= pattern.subrange(n + 1 - (k + 1), n + 1));
}

/// Of two borders of one prefix, the shorter is a border of the longer.
proof fn lemma_border_of_border(pattern: Seq<u16>, n: int, k: int, shorter: int)
    requires
        is_border(pattern, n, k),
        is_border(pattern, n, shorter),
        shorter < k,
    ensures
        is_border(pattern, k, shorter),
{
    let a = pattern.subrange(0, k);
    let b = pattern.subrange(n - k, n);
    let c = pattern.subrange(0, shorter);
    let d = pattern.subrange(n - shorter, n);
    assert forall|x: int| 0 <= x < shorter implies #[trigger] pattern.subrange(0, shorter)[x]
        == pattern.subrange(k - shorter, k)[x] by {
        assert(c[x] == d[x]);
        assert(a[k - shorter + x] == b[k - shorter + x]);
    }
    assert(pattern.subrange(0, shorter) =~= pattern.subrange(k - shorter, k));
}

/// A border of a border of a prefix is a border of the prefix.
proof fn lemma_border_chain(pattern: Seq<u16>, n: int, k: int, shorter: int)
    requires
        is_border(pattern, n, k),
        is_border(pattern, k, shorter),
    ensures
        is_border(pattern, n, shorter),
{
    let a = pattern.subrange(0, k);
    let b = pattern.subrange(n - k, n);
    let c = pattern.subrange(0, shorter);
    let d = pattern.subrange(k - shorter, k);
    assert forall|x: int| 0 <= x < shorter implies #[trigger] pattern.subrange(0, shorter)[x]
        == pattern.subrange(n - shorter, n)[x] by {
        assert(c[x] == d[x]);
        assert(a[k - shorter + x] == b[k - shorter + x]);
    }
    assert(pattern.subrange(0, shorter) =~= pattern.subrange(n - shorter, n));
}

/// Where nothing occurs between two positions, the occurrences from the
/// first are those from the second.
proof fn lemma_gap(text: Seq<u16>, pattern: Seq<u16>, from: nat, to: nat)
    requires
        from <= to,
        forall|s: int| from <= s < to ==> !occurs(text, pattern, s),
    ensures
        occurrences(text, pattern, from) == occurrences(text, pattern, to),
    decreases to - from,
{
    if from < to {
        lemma_gap(text, pattern, from + 1, to);
        if from + pattern.len() > text.len() {
            lemma_none_near_end(text, pattern, to);
        }
    }
}

/// No occurrence begins so late that the pattern would pass the end.
proof fn lemma_none_near_end(text: Seq<u16>, pattern: Seq<u16>, from: nat)
    requires
        from + pattern.len() > text.len(),
    ensures
        occurrences(text, pattern, from) == Seq::<usize>::empty(),
{
}

/// Where the code units that follow an aligned stretch differ, the pattern
/// does not occur at the start of the stretch.
proof fn lemma_mismatch(text: Seq<u16>, pattern: Seq<u16>, i: int, j: int)
    requires
        aligned(text, pattern, i, j),
        j < pattern.len(),
        i < text.len(),
        pattern[j] != text[i],
    ensures
        !occurs(text, pattern, i - j),
{
    if occurs(text, pattern, i - j) {
        let found = text.subrange(i - j, i - j + pattern.len());
        assert(found[j] == text[i]);
    }
}

/// An aligned stretch grows by one where the next code units agree.
proof fn lemma_step(text: Seq<u16>, pattern: Seq<u16>, i: int, j: int)
    requires
        aligned(text, pattern, i, j),
        j < pattern.len(),
        i < text.len(),
        pattern[j] == text[i],
    ensures
        aligned(text, pattern, i + 1, j + 1),
{
    let a = text.subrange(i - j, i);
    let b = pattern.subrange(0, j);
    assert forall|x: int| 0 <= x < j + 1 implies #[trigger] text.subrange(i - j, i + 1)[x]
        == pattern.subrange(0, j + 1)[x] by {
        if x < j {
            assert(a[x] == b[x]);
        }
    }
    assert(text.subrange(i + 1 - (j + 1), i + 1) =~= pattern.subrange(0, j + 1));
}

/// After an aligned stretch of `j` code units, the search may go on with the
/// longest border of the pattern's first `j`: that border is aligned too, and
/// the pattern occurs nowhere between the two starts.
proof fn lemma_shift(text: Seq<u16>, pattern: Seq<u16>, table: Seq<usize>, i: int, j: int)
    requires
        is_lps(pattern, table),
        aligned(text, pattern, i, j),
        j >= 1,
    ensures
        aligned(text, pattern, i, table[j - 1] as int),
        forall|s: int| i - j < s < i - table[j - 1] ==> !occurs(text, pattern, s),
{
    let b = table[j - 1] as int;
    assert(is_border(pattern, j, b));
    let stretch = text.subrange(i - j, i);
    let head = pattern.subrange(0, j);
    assert forall|x: int| 0 <= x < b implies #[trigger] text.subrange(i - b, i)[x] == pattern.subrange(
        0,
        b,
    )[x] by {
        assert(stretch[j - b + x] == head[j - b + x]);
        assert(pattern.subrange(0, b)[x] == pattern.subrange(j - b, j)[x]);
    }
    assert(text.subrange(i - b, i) =~= pattern.subrange(0, b));
    assert forall|s: int| i - j < s < i - b implies !occurs(text, pattern, s) by {
        if occurs(text, pattern, s) {
            let k = i - s;
            let found = text.subrange(s, s + pattern.len());
            assert forall|x: int| 0 <= x < k implies #[trigger] pattern.subrange(0, k)[x] == pattern.subrange(
                j - k,
                j,
            )[x] by {
                assert(found[x] == pattern[x]);
                assert(stretch[j - k + x] == head[j - k + x]);
            }
            assert(pattern.subrange(0, k) =~= pattern.subrange(j - k, j));
            assert(is_border(pattern, j, k));
        }
    }
}

/// The longest-border table of the pattern: for each position, the length of
/// the longest proper prefix of the pattern up to it that is also its suffix.
#[inline(always)]
pub fn compute_lps_array(pattern: &IndexedString) -> (lps: Vec<usize>)
    requires
        pattern@.len() > 0,
    ensures
        is_lps(pattern@, lps@),
{
    let ptn_len = pattern.len();
    let mut lps: Vec<usize> = Vec::new();
    lps.push(0);
    let ghost p = pattern@;
    // length of the previous longest prefix suffix
    let mut len: usize = 0;
    // the loop calculates lps[i] for i = 1 to ptn_len-1
    let mut i: usize = 1;
    assert(is_border(p, 1, 0)) by {
        assert(p.subrange(0, 0) =~= p.subrange(1, 1));
    }
    while i < ptn_len
        invariant
            p == pattern@,
            ptn_len == p.len(),
            1 <= i <= ptn_len,
            lps@.len() == i,
            len < i,
            is_border(p, i as int, len as int),
            forall|m: int| 0 <= m < i ==> is_border(p, m + 1, #[trigger] lps@[m] as int),
            forall|n: int, k: int|
                1 <= n <= i && #[trigger] is_border(p, n, k) ==> k <= lps@[n - 1],
            forall|k: int| #[trigger] is_border(p, i + 1, k) ==> k <= len + 1,
        decreases ptn_len - i, len,
    {
        let ghost i0 = i as int;
        let ghost len0 = len as int;
        let ghost table = lps@;
        if pattern.at(i) == pattern.at(len) {
            len += 1;
            lps.push(len);
            i += 1;
            proof {
                lemma_border_extend(p, i0, len0);
                assert forall|k: int| #[trigger] is_border(p, i + 1, k) implies k <= len + 1 by {
                    if k >= 1 {
                        lemma_border_shrink(p, i as int, k);
                        assert(is_border(p, i0 + 1, k - 1));
                    }
                }
                assert forall|n: int, k: int| 1 <= n <= i && #[trigger] is_border(p, n, k) implies k
                    <= lps@[n - 1] by {
                    if n == i {
                        assert(is_border(p, i0 + 1, k));
                    } else {
                        assert(lps@[n - 1] == table[n - 1]);
                    }
                }
                assert forall|m: int| 0 <= m < i implies is_border(
                    p,
                    m + 1,
                    #[trigger] lps@[m] as int,
                ) by {
                    if m < i0 {
                        assert(lps@[m] == table[m]);
                    }
                }
            }
        } else if len != 0 {
            len = lps[len - 1];
            proof {
                let shorter = len as int;
                assert(is_border(p, len0, table[len0 - 1] as int));
                lemma_border_chain(p, i0, len0, shorter);
                assert forall|k: int| #[trigger] is_border(p, i + 1, k) implies k <= len + 1 by {
                    if k >= 1 {
                        lemma_border_shrink(p, i0, k);
                        if k - 1 > shorter {
                            assert(k - 1 <= len0);
                            assert(k - 1 != len0);
                            lemma_border_of_border(p, i0, len0, k - 1);
                            assert(is_border(p, len0, k - 1));
                        }
                    }
                }
            }
        } else {
            lps.push(0);
            i += 1;
            proof {
                assert(is_border(p, i0 + 1, 0)) by {
                    assert(p.subrange(0, 0) =~= p.subrange(i0 + 1, i0 + 1));
                }
                assert forall|k: int| #[trigger] is_border(p, i0 + 1, k) implies k <= 0 by {
                    if k >= 1 {
                        lemma_border_shrink(p, i0, k);
                    }
                }
                assert forall|k: int| #[trigger] is_border(p, i + 1, k) implies k <= len + 1 by {
                    if k >= 1 {
                        lemma_border_shrink(p, i as int, k);
                        assert(is_border(p, i0 + 1, k - 1));
                    }
                }
                assert forall|n: int, k: int| 1 <= n <= i && #[trigger] is_border(p, n, k) implies k
                    <= lps@[n - 1] by {
                    if n == i {
                        assert(is_border(p, i0 + 1, k));
                    } else {
                        assert(lps@[n - 1] == table[n - 1]);
                    }
                }
                assert forall|m: int| 0 <= m < i implies is_border(
                    p,
                    m + 1,
                    #[trigger] lps@[m] as int,
                ) by {
                    if m < i0 {
                        assert(lps@[m] == table[m]);
                    }
                }
            }
        }
    }
    lps
}

/// The search for a pattern that is shorter than the text and not empty:
/// both in indexed form, the table of longest borders, made at the first
/// call, and the two cursors.
#[derive(Debug)]
pub struct KMPPatternFinder {
    text: IndexedString,
    pattern: IndexedString,
    lps_array: Option<Vec<usize>>,
    // iterator state
    done: bool,
    text_index: usize,
    pattern_index: usize,
}

impl View for KMPPatternFinder {
    type V = Seq<usize>;

    /// The positions that the finder has yet to yield, ascending.
    closed spec fn view(&self) -> Seq<usize> {
        if self.done {
            Seq::empty()
        } else {
            occurrences(
                self.text@,
                self.pattern@,
                (self.text_index - self.pattern_index) as nat,
            )
        }
    }
}

impl KMPPatternFinder {
    /// The pattern is not empty, the table, once made, is the table of its
    /// longest borders, and the code units before the text cursor are the
    /// pattern's up to its cursor.
    pub closed spec fn wf(&self) -> bool {
        &&& self.pattern@.len() > 0
        &&& self.lps_array matches Some(table) ==> is_lps(self.pattern@, table@)
        &&& !self.done ==> {
            &&& aligned(self.text@, self.pattern@, self.text_index as int, self.pattern_index as int)
            &&& self.pattern_index < self.pattern@.len()
        }
    }

    /// A finder for `pattern` in `text`, neither of them empty.
    #[inline]
    pub fn new(text: DynamicString, pattern: DynamicString) -> (finder: Self)
        requires
            0 < text@.len() <= usize::MAX,
            0 < pattern@.len() <= usize::MAX,
        ensures
            finder.wf(),
            finder@ == occurrences(text@, pattern@, 0),
    {
        let finder = KMPPatternFinder {
            text: IndexedString::new(text),
            pattern: IndexedString::new(pattern),
            lps_array: None,
            done: false,
            text_index: 0,
            pattern_index: 0,
        };
        assert(finder.text@.subrange(0, 0) =~= finder.pattern@.subrange(0, 0));
        finder
    }

    /// The entry of the table of longest borders for a prefix of `j` code units.
    fn border(&self, j: usize) -> (b: usize)
        requires
            self.wf(),
            self.lps_array is Some,
            1 <= j <= self.pattern@.len(),
        ensures
            b == self.lps_array->0@[j - 1],
            is_border(self.pattern@, j as int, b as int),
    {
        match &self.lps_array {
            Some(table) => table[j - 1],
            None => 0,
        }
    }

    /// The next position at which the pattern occurs, or `None` once all have
    /// been yielded.
    #[inline]
    pub fn next(&mut self) -> (r: Option<usize>)
        requires
            old(self).wf(),
        ensures
            final(self).wf(),
            old(self)@.len() == 0 ==> r is None && final(self)@ == old(self)@,
            old(self)@.len() > 0 ==> r == Some(old(self)@[0]) && final(self)@ == old(self)@.skip(1),
    {
        if self.done {
            return None;
        }
        if self.lps_array.is_none() {
            self.lps_array = Some(compute_lps_array(&self.pattern));
        }
        let len = self.text.len();
        let ptn_len = self.pattern.len();
        let ghost t = self.text@;
        let ghost p = self.pattern@;
        let ghost table = self.lps_array->0@;
        let ghost start = *self;

        let mut i = self.text_index;
        let mut j = self.pattern_index;

        while i < len
            invariant
                *self == start,
                self.wf(),
                !self.done,
                self.lps_array is Some,
                self.lps_array->0@ == table,
                is_lps(p, table),
                t == self.text@,
                p == self.pattern@,
                len == t.len(),
                ptn_len == p.len(),
                aligned(t, p, i as int, j as int),
                j < ptn_len,
                occurrences(t, p, (i - j) as nat) == old(self)@,
            decreases 2 * (len - i) + j,
        {
            if self.pattern.at(j) == self.text.at(i) {
                proof {
                    lemma_step(t, p, i as int, j as int);
                }
                j += 1;
                i += 1;
            }
            if j == ptn_len {
                let next = self.border(j);
                let found = i - j;
                proof {
                    assert(t.subrange(found as int, found + p.len()) =~= p.subrange(0, j as int));
                    assert(p.subrange(0, j as int) =~= p);
                    assert(occurs(t, p, found as int));
                    lemma_shift(t, p, table, i as int, j as int);
                    lemma_gap(t, p, (found + 1) as nat, (i - next) as nat);
                    assert(old(self)@ =~= seq![found] + occurrences(t, p, (i - next) as nat));
                }
                self.text_index = i;
                self.pattern_index = next;
                assert(self@ =~= old(self)@.skip(1));
                return Some(found);
            }
            if i < len && self.pattern.at(j) != self.text.at(i) {
                proof {
                    lemma_mismatch(t, p, i as int, j as int);
                }
                if j != 0 {
                    let next = self.border(j);
                    proof {
                        lemma_shift(t, p, table, i as int, j as int);
                        lemma_gap(t, p, (i - j) as nat, (i - next) as nat);
                    }
                    j = next;
                } else {
                    proof {
                        assert(t.subrange(i + 1, i + 1) =~= p.subrange(0, 0));
                        lemma_gap(t, p, i as nat, (i + 1) as nat);
                    }
                    i += 1;
                }
            }
        }
        proof {
            lemma_none_near_end(t, p, (i - j) as nat);
        }
        self.done = true;
        None
    }
}

#[derive(Debug)]
enum PatternFinderInner {
    /// This finder will only yield one 0 and finish.
    Zero { done: bool },
    /// Yield all the numbers until the end.
    Any { index: usize, end: usize },
    /// Use the KMP finder.
    KMP(KMPPatternFinder),
}

impl PatternFinderInner {
    spec fn wf(&self) -> bool {
        self matches PatternFinderInner::KMP(finder) ==> finder.wf()
    }

    spec fn rest(&self) -> Seq<usize> {
        match self {
            PatternFinderInner::Zero { done } => if *done {
                Seq::empty()
            } else {
                seq![0usize]
            },
            PatternFinderInner::Any { index, end } => run(*index as nat, *end as nat),
            PatternFinderInner::KMP(finder) => finder@,
        }
    }

    #[inline]
    fn next(&mut self) -> (r: Option<usize>)
        requires
            old(self).wf(),
        ensures
            final(self).wf(),
            old(self).rest().len() == 0 ==> r is None && final(self).rest() == old(self).rest(),
            old(self).rest().len() > 0 ==> r == Some(old(self).rest()[0]) && final(self).rest()
                == old(self).rest().skip(1),
    {
        match self {
            PatternFinderInner::Zero { done } => {
                if *done {
                    None
                } else {
                    *done = true;
                    assert(seq![0usize].skip(1) =~= Seq::<usize>::empty());
                    Some(0)
                }
            },
            PatternFinderInner::Any { index, end } => {
                if *index >= *end {
                    None
                } else {
                    let c = *index;
                    *index += 1;
                    assert(run((c + 1) as nat, *end as nat) =~= run(c as nat, *end as nat).skip(1));
                    Some(c)
                }
            },
            PatternFinderInner::KMP(finder) => finder.next(),
        }
    }
}

/// A lazy (iterative) string matcher.
#[derive(Debug)]
pub struct PatternFinder(PatternFinderInner);

impl View for PatternFinder {
    type V = Seq<usize>;

    /// The positions that the finder has yet to yield, ascending.
    closed spec fn view(&self) -> Seq<usize> {
        self.0.rest()
    }
}

impl PatternFinder {
    #[verifier::type_invariant]
    spec fn well_formed(&self) -> bool {
        self.0.wf()
    }

    /// Creates a new PatternFinder which will search for the given `pattern` in the given
    /// `text`.
    pub fn new(text: DynamicString, pattern: DynamicString) -> (finder: Self)
        requires
            text.valid(),
            pattern.valid(),
        ensures
            finder@ == finds(text@, pattern@),
    {
        proof {
            lemma_valid_len(text);
            lemma_valid_len(pattern);
        }
        let txt_len = text.len();
        let ptn_len = pattern.len();
        let inner = if ptn_len == 0 {
            if txt_len == 0 {
                PatternFinderInner::Zero { done: false }
            } else {
                PatternFinderInner::Any { index: 0, end: txt_len }
            }
        } else if ptn_len > txt_len {
            PatternFinderInner::Zero { done: true }
        } else if ptn_len == txt_len {
            let same = text == pattern;
            proof {
                assert(text@.subrange(0, pattern@.len() as int) =~= text@);
                lemma_none_near_end(text@, pattern@, 1);
                assert(seq![0usize] + Seq::<usize>::empty() =~= seq![0usize]);
            }
            PatternFinderInner::Zero { done: !same }
        } else {
            PatternFinderInner::KMP(KMPPatternFinder::new(text, pattern))
        };
        PatternFinder(inner)
    }

    /// Returns a vector containing the positions of all the occurrences.
    #[inline]
    pub fn all(text: DynamicString, pattern: DynamicString) -> (found: Vec<usize>)
        requires
            text.valid(),
            pattern.valid(),
        ensures
            found@ == finds(text@, pattern@),
    {
        let mut finder = Self::new(text, pattern);
        let mut found: Vec<usize> = Vec::new();
        loop
            invariant
                found@ + finder@ == finds(text@, pattern@),
            ensures
                finder@.len() == 0,
            decreases finder@.len(),
        {
            let ghost before = finder@;
            match finder.next() {
                None => {
                    break ;
                },
                Some(at) => {
                    assert(found@.push(at) + finder@ =~= found@ + before);
                    found.push(at);
                },
            }
        }
        assert(found@ =~= found@ + finder@);
        found
    }

    /// The next position at which the pattern is found, or `None` once all
    /// have been yielded.
    #[inline]
    pub fn next(&mut self) -> (r: Option<usize>)
        ensures
            old(self)@.len() == 0 ==> r is None && final(self)@ == old(self)@,
            old(self)@.len() > 0 ==> r == Some(old(self)@[0]) && final(self)@ == old(self)@.skip(1),
    {
        proof {
            use_type_invariant(&*self);
        }
        // The state is taken out while it advances, and put back after.
        let mut inner = PatternFinderInner::Zero { done: true };
        std::mem::swap(&mut self.0, &mut inner);
        let r = inner.next();
        std::mem::swap(&mut self.0, &mut inner);
        r
    }
}

} // verus!
