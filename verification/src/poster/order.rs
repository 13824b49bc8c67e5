//! Ordering what a run has posted, and the files that it reads.

use vstd::prelude::*;
use vstd::string::*;

use super::PostedSegment;

verus! {

/// What is ordered by: bytes first, then a number.
pub struct SortKey {
    pub bytes: Vec<u8>,
    pub number: u32,
}

impl View for SortKey {
    type V = (Seq<u8>, u32);

    open spec fn view(&self) -> (Seq<u8>, u32) {
        (self.bytes@, self.number)
    }
}

/// `a` comes before `b` in dictionary order.
pub open spec fn bytes_before(a: Seq<u8>, b: Seq<u8>) -> bool
    decreases a.len(),
{
    if b.len() == 0 {
        false
    } else if a.len() == 0 {
        true
    } else {
        a[0] < b[0] || (a[0] == b[0] && bytes_before(a.drop_first(), b.drop_first()))
    }
}

/// One key comes before another.
pub open spec fn key_before(a: (Seq<u8>, u32), b: (Seq<u8>, u32)) -> bool {
    bytes_before(a.0, b.0) || (a.0 == b.0 && a.1 < b.1)
}

/// Item `i` comes before item `j`: by key, and of equal keys the first.
pub open spec fn comes_before(keys: Seq<(Seq<u8>, u32)>, i: int, j: int) -> bool {
    key_before(keys[i], keys[j]) || (keys[i] == keys[j] && i < j)
}

/// `order` lists each of the items `from` to `to`, in order.
pub open spec fn is_order(
    keys: Seq<(Seq<u8>, u32)>,
    from: int,
    to: int,
    order: Seq<usize>,
) -> bool {
    &&& order.len() == to - from
    &&& forall|k: int| 0 <= k < order.len() ==> from <= #[trigger] order[k] < to
    &&& forall|i: usize| from <= i < to ==> #[trigger] order.contains(i)
    &&& forall|k: int, l: int|
        0 <= k < l < order.len() ==> comes_before(
            keys,
            #[trigger] order[k] as int,
            #[trigger] order[l] as int,
        )
}

/// The keys as values.
pub open spec fn key_views(keys: Seq<SortKey>) -> Seq<(Seq<u8>, u32)> {
    Seq::new(keys.len(), |i: int| keys[i]@)
}

/// Dictionary order is an order: nothing comes before itself, and of two that
/// differ one comes first.
pub proof fn lemma_bytes_total(a: Seq<u8>, b: Seq<u8>)
    ensures
        a == b ==> !bytes_before(a, b),
        a != b ==> bytes_before(a, b) != bytes_before(b, a),
    decreases a.len(),
{
    if a.len() > 0 && b.len() > 0 && a[0] == b[0] {
        lemma_bytes_total(a.drop_first(), b.drop_first());
        if a.drop_first() == b.drop_first() {
            assert(a =~= seq![a[0]] + a.drop_first());
            assert(b =~= seq![b[0]] + b.drop_first());
        }
    } else if a.len() == 0 && b.len() == 0 {
        assert(a =~= b);
    }
}

/// `a` and `b` agree up to `i`, where `a` ends or has the smaller byte.
pub open spec fn first_differs(a: Seq<u8>, b: Seq<u8>, i: int) -> bool {
    &&& 0 <= i <= a.len()
    &&& i < b.len()
    &&& forall|k: int| 0 <= k < i ==> #[trigger] a[k] == b[k]
    &&& i == a.len() || a[i] < b[i]
}

/// Dictionary order is decided where two differ first.
pub proof fn law_dictionary_order(a: Seq<u8>, b: Seq<u8>)
    ensures
        bytes_before(a, b) <==> exists|i: int| first_differs(a, b, i),
    decreases a.len(),
{
    if a.len() > 0 && b.len() > 0 && a[0] == b[0] {
        let x = a.drop_first();
        let y = b.drop_first();
        law_dictionary_order(x, y);
        if bytes_before(a, b) {
            let i = choose|i: int| first_differs(x, y, i);
            assert forall|k: int| 0 <= k < i + 1 implies #[trigger] a[k] == b[k] by {
                if k > 0 {
                    assert(x[k - 1] == y[k - 1]);
                }
            }
            assert(first_differs(a, b, i + 1));
        }
        if exists|i: int| first_differs(a, b, i) {
            let i = choose|i: int| first_differs(a, b, i);
            assert forall|k: int| 0 <= k < i - 1 implies #[trigger] x[k] == y[k] by {
                assert(a[k + 1] == b[k + 1]);
            }
            assert(first_differs(x, y, i - 1));
        }
    } else if bytes_before(a, b) {
        assert(first_differs(a, b, 0));
    } else if exists|i: int| first_differs(a, b, i) {
        let i = choose|i: int| first_differs(a, b, i);
        if i > 0 {
            assert(a[0] == b[0]);
        }
    }
}

/// Dictionary order is transitive.
pub proof fn lemma_bytes_transitive(a: Seq<u8>, b: Seq<u8>, c: Seq<u8>)
    requires
        bytes_before(a, b),
        bytes_before(b, c),
    ensures
        bytes_before(a, c),
    decreases a.len(),
{
    if a.len() > 0 && a[0] == b[0] && b[0] == c[0] {
        lemma_bytes_transitive(a.drop_first(), b.drop_first(), c.drop_first());
    }
}

proof fn lemma_before_transitive(keys: Seq<(Seq<u8>, u32)>, i: int, j: int, k: int)
    requires
        comes_before(keys, i, j),
        comes_before(keys, j, k),
    ensures
        comes_before(keys, i, k),
{
    if bytes_before(keys[i].0, keys[j].0) && bytes_before(keys[j].0, keys[k].0) {
        lemma_bytes_transitive(keys[i].0, keys[j].0, keys[k].0);
    }
}

/// What an order lists first has the smaller bytes, or the same bytes and a number
/// that is not greater, and of two with the same key the first comes first.
pub proof fn law_orders_go_by_bytes_and_number(
    keys: Seq<(Seq<u8>, u32)>,
    from: int,
    to: int,
    order: Seq<usize>,
    k: int,
    l: int,
)
    requires
        is_order(keys, from, to, order),
        0 <= k < l < order.len(),
    ensures
        ({
            let a = keys[order[k] as int];
            let b = keys[order[l] as int];
            &&& a.0 == b.0 || exists|i: int| first_differs(a.0, b.0, i)
            &&& a.0 == b.0 ==> a.1 <= b.1
            &&& a == b ==> order[k] < order[l]
        }),
{
    let a = keys[order[k] as int];
    let b = keys[order[l] as int];
    assert(comes_before(keys, order[k] as int, order[l] as int));
    law_dictionary_order(a.0, b.0);
    lemma_bytes_total(a.0, b.0);
}

/// An order lists nothing twice.
pub proof fn law_order_lists_nothing_twice(
    keys: Seq<(Seq<u8>, u32)>,
    from: int,
    to: int,
    order: Seq<usize>,
    k: int,
    l: int,
)
    requires
        is_order(keys, from, to, order),
        0 <= k < l < order.len(),
    ensures
        order[k] != order[l],
{
    lemma_bytes_total(keys[order[k] as int].0, keys[order[l] as int].0);
    assert(comes_before(keys, order[k] as int, order[l] as int));
}

/// Whether `a` comes before `b` in dictionary order.
fn is_bytes_before(a: &[u8], b: &[u8]) -> (r: bool)
    ensures
        r == bytes_before(a@, b@),
{
    let n: usize = a.len();
    let m: usize = b.len();
    let mut i: usize = 0;
    assert(a@.skip(0) =~= a@);
    assert(b@.skip(0) =~= b@);
    while i < n && i < m
        invariant
            i <= n,
            i <= m,
            n == a@.len(),
            m == b@.len(),
            bytes_before(a@, b@) == bytes_before(a@.skip(i as int), b@.skip(i as int)),
        decreases n - i,
    {
        if a[i] != b[i] {
            return a[i] < b[i];
        }
        assert(a@.skip(i as int).drop_first() =~= a@.skip(i + 1));
        assert(b@.skip(i as int).drop_first() =~= b@.skip(i + 1));
        i = i + 1;
    }
    i < m
}

fn is_key_before(a: &SortKey, b: &SortKey) -> (r: bool)
    ensures
        r == key_before(a@, b@),
{
    if is_bytes_before(a.bytes.as_slice(), b.bytes.as_slice()) {
        return true;
    }
    proof {
        lemma_bytes_total(a.bytes@, b.bytes@);
    }
    !is_bytes_before(b.bytes.as_slice(), a.bytes.as_slice()) && a.number < b.number
}

proof fn lemma_push_contains(s: Seq<usize>, v: usize)
    ensures
        s.push(v).contains(v),
        forall|w: usize| #[trigger] s.contains(w) ==> s.push(v).contains(w),
{
    assert(s.push(v)[s.len() as int] == v);
    assert forall|w: usize| #[trigger] s.contains(w) implies s.push(v).contains(w) by {
        let k = choose|k: int| 0 <= k < s.len() && s[k] == w;
        assert(s.push(v)[k] == w);
    }
}

proof fn lemma_push_sorted(keys: Seq<(Seq<u8>, u32)>, out: Seq<usize>, v: usize)
    requires
        forall|k: int, l: int|
            0 <= k < l < out.len() ==> comes_before(
                keys,
                #[trigger] out[k] as int,
                #[trigger] out[l] as int,
            ),
        out.len() > 0 ==> comes_before(keys, out.last() as int, v as int),
    ensures
        forall|k: int, l: int|
            0 <= k < l < out.push(v).len() ==> comes_before(
                keys,
                #[trigger] out.push(v)[k] as int,
                #[trigger] out.push(v)[l] as int,
            ),
{
    assert forall|k: int, l: int| 0 <= k < l < out.push(v).len() implies comes_before(
        keys,
        #[trigger] out.push(v)[k] as int,
        #[trigger] out.push(v)[l] as int,
    ) by {
        if l < out.len() {
            assert(comes_before(keys, out[k] as int, out[l] as int));
        } else if k < out.len() - 1 {
            assert(comes_before(keys, out[k] as int, out[out.len() - 1] as int));
            lemma_before_transitive(keys, out[k] as int, out.last() as int, v as int);
        }
    }
}

/// Merge two neighbouring lists that are in order.
#[verifier::rlimit(40)]
fn merge(keys: &[SortKey], left: &[usize], right: &[usize], from: usize, mid: usize, to: usize) -> (
out: Vec<usize>)
    requires
        from <= mid <= to <= keys@.len(),
        is_order(key_views(keys@), from as int, mid as int, left@),
        is_order(key_views(keys@), mid as int, to as int, right@),
    ensures
        is_order(key_views(keys@), from as int, to as int, out@),
{
    let ghost views = key_views(keys@);
    let n: usize = left.len();
    let m: usize = right.len();
    let mut out: Vec<usize> = Vec::new();
    let mut i: usize = 0;
    let mut j: usize = 0;
    while i < n || j < m
        invariant
            from <= mid <= to <= keys@.len(),
            views == key_views(keys@),
            n == left@.len(),
            m == right@.len(),
            i <= n,
            j <= m,
            is_order(views, from as int, mid as int, left@),
            is_order(views, mid as int, to as int, right@),
            out@.len() == i + j,
            forall|k: int| 0 <= k < out@.len() ==> from <= #[trigger] out@[k] < to,
            forall|k: int| 0 <= k < i ==> out@.contains(#[trigger] left@[k]),
            forall|k: int| 0 <= k < j ==> out@.contains(#[trigger] right@[k]),
            forall|k: int, l: int|
                0 <= k < l < out@.len() ==> comes_before(
                    views,
                    #[trigger] out@[k] as int,
                    #[trigger] out@[l] as int,
                ),
            out@.len() > 0 && i < n ==> comes_before(
                views,
                out@.last() as int,
                left@[i as int] as int,
            ),
            out@.len() > 0 && j < m ==> comes_before(
                views,
                out@.last() as int,
                right@[j as int] as int,
            ),
        decreases n - i + m - j,
    {
        let take_left: bool = if i == n {
            false
        } else if j == m {
            true
        } else {
            let a: usize = left[i];
            let b: usize = right[j];
            proof {
                assert(from <= left@[i as int] < mid);
                assert(mid <= right@[j as int] < to);
                lemma_bytes_total(views[a as int].0, views[b as int].0);
            }
            !is_key_before(&keys[b], &keys[a])
        };
        let ghost before = out@;
        if take_left {
            let v: usize = left[i];
            proof {
                assert(from <= left@[i as int] < mid);
                lemma_push_contains(before, v);
                lemma_push_sorted(views, before, v);
                if i + 1 < n {
                    assert(comes_before(views, left@[i as int] as int, left@[i + 1] as int));
                }
                assert forall|k: int| 0 <= k < i + 1 implies before.push(v).contains(
                    #[trigger] left@[k],
                ) by {
                    if k < i {
                        assert(before.contains(left@[k]));
                    }
                }
            }
            out.push(v);
            i = i + 1;
        } else {
            let v: usize = right[j];
            proof {
                assert(mid <= right@[j as int] < to);
                lemma_push_contains(before, v);
                lemma_push_sorted(views, before, v);
                if j + 1 < m {
                    assert(comes_before(views, right@[j as int] as int, right@[j + 1] as int));
                }
                assert forall|k: int| 0 <= k < j + 1 implies before.push(v).contains(
                    #[trigger] right@[k],
                ) by {
                    if k < j {
                        assert(before.contains(right@[k]));
                    }
                }
            }
            out.push(v);
            j = j + 1;
        }
    }
    proof {
        assert forall|v: usize| from <= v < to implies #[trigger] out@.contains(v) by {
            if v < mid {
                assert(left@.contains(v));
                let k = choose|k: int| 0 <= k < left@.len() && left@[k] == v;
                assert(out@.contains(left@[k]));
            } else {
                assert(right@.contains(v));
                let k = choose|k: int| 0 <= k < right@.len() && right@[k] == v;
                assert(out@.contains(right@[k]));
            }
        }
    }
    out
}

/// The items `from` to `to` in order.
fn sort_range(keys: &[SortKey], from: usize, to: usize) -> (order: Vec<usize>)
    requires
        from <= to <= keys@.len(),
    ensures
        is_order(key_views(keys@), from as int, to as int, order@),
    decreases to - from,
{
    let mut order: Vec<usize> = Vec::new();
    if to - from == 0 {
        return order;
    }
    if to - from == 1 {
        order.push(from);
        proof {
            assert(order@[0] == from);
            assert(order@.contains(from));
        }
        return order;
    }
    let mid: usize = from + (to - from) / 2;
    let left: Vec<usize> = sort_range(keys, from, mid);
    let right: Vec<usize> = sort_range(keys, mid, to);
    merge(keys, left.as_slice(), right.as_slice(), from, mid, to)
}

/// All items in order: by key, and where keys are equal as they came.
pub fn sort_order(keys: &[SortKey]) -> (order: Vec<usize>)
    ensures
        is_order(key_views(keys@), 0, keys@.len() as int, order@),
{
    sort_range(keys, 0, keys.len())
}

/// Put items in a given order.
pub fn arrange<T>(items: Vec<T>, order: &[usize]) -> (out: Vec<T>)
    requires
        order@.len() == items@.len(),
        forall|k: int| 0 <= k < order@.len() ==> (#[trigger] order@[k]) < items@.len(),
        forall|k: int, l: int| 0 <= k < l < order@.len() ==> order@[k] != order@[l],
    ensures
        out@.len() == items@.len(),
        forall|k: int| 0 <= k < out@.len() ==> #[trigger] out@[k] == items@[order@[k] as int],
{
    let ghost all = items@;
    let n: usize = items.len();
    let mut rest: Vec<T> = items;
    let mut reversed: Vec<Option<T>> = Vec::new();
    let mut i: usize = 0;
    while i < n
        invariant
            i <= n,
            n == all.len(),
            rest@ == all.take(n - i),
            reversed@.len() == i,
            forall|k: int| 0 <= k < i ==> #[trigger] reversed@[k] == Some(all[n - 1 - k]),
        decreases n - i,
    {
        let item: Option<T> = rest.pop();
        assert(item == Some(all[n - i - 1]));
        reversed.push(item);
        assert(rest@ =~= all.take(n - i - 1));
        i = i + 1;
    }
    let mut out: Vec<T> = Vec::new();
    let mut k: usize = 0;
    while k < n
        invariant
            k <= n,
            n == all.len(),
            n == order@.len(),
            reversed@.len() == n,
            forall|a: int| 0 <= a < order@.len() ==> (#[trigger] order@[a]) < n,
            forall|a: int, b: int| 0 <= a < b < order@.len() ==> order@[a] != order@[b],
            out@.len() == k,
            forall|a: int| 0 <= a < k ==> #[trigger] out@[a] == all[order@[a] as int],
            forall|a: int|
                k <= a < n ==> reversed@[n - 1 - #[trigger] order@[a]] == Some(
                    all[order@[a] as int],
                ),
        decreases n - k,
    {
        let place: usize = n - 1 - order[k];
        let mut taken: Option<T> = None;
        let ghost before = reversed@;
        std::mem::swap(&mut reversed[place], &mut taken);
        match taken {
            Some(item) => {
                out.push(item);
            },
            None => {},
        }
        k = k + 1;
    }
    out
}

/// The bytes of a string.
pub fn bytes_of(s: &str) -> (bytes: Vec<u8>)
    ensures
        bytes@ == s.spec_bytes(),
{
    let source: &[u8] = s.as_bytes();
    let mut bytes: Vec<u8> = Vec::new();
    crate::text::push_bytes(&mut bytes, source);
    assert(bytes@ =~= source@);
    bytes
}

/// Segments are ordered by file name, and within a file by part.
pub open spec fn segment_keys(segments: Seq<PostedSegment>) -> Seq<(Seq<u8>, u32)> {
    Seq::new(
        segments.len(),
        |i: int| (vstd::utf8::encode_utf8(segments[i].file_name@), segments[i].part),
    )
}

/// Sort segments by file name, and within a file by part.
pub fn sort_segments(segments: Vec<PostedSegment>) -> (sorted: Vec<PostedSegment>)
    ensures
        sorted@.len() == segments@.len(),
        exists|order: Seq<usize>| #[trigger]
            is_order(segment_keys(segments@), 0, segments@.len() as int, order) && (forall|k: int|
                0 <= k < sorted@.len() ==> #[trigger] sorted@[k] == segments@[order[k] as int]),
        forall|k: int, l: int|
            0 <= k < l < sorted@.len() ==> !key_before(
                #[trigger] segment_keys(sorted@)[l],
                #[trigger] segment_keys(sorted@)[k],
            ),
{
    let n: usize = segments.len();
    let mut keys: Vec<SortKey> = Vec::new();
    let mut i: usize = 0;
    while i < n
        invariant
            i <= n,
            n == segments@.len(),
            keys@.len() == i,
            forall|k: int|
                0 <= k < i ==> (#[trigger] keys@[k])@ == segment_keys(segments@)[k],
        decreases n - i,
    {
        keys.push(
            SortKey {
                bytes: bytes_of(segments[i].file_name.as_str()),
                number: segments[i].part,
            },
        );
        i = i + 1;
    }
    assert(key_views(keys@) =~= segment_keys(segments@));
    let order: Vec<usize> = sort_order(keys.as_slice());
    let ghost all = segments@;
    proof {
        assert forall|k: int, l: int| 0 <= k < l < order@.len() implies order@[k] != order@[l] by {
            law_order_lists_nothing_twice(segment_keys(all), 0, all.len() as int, order@, k, l);
        }
    }
    let sorted: Vec<PostedSegment> = arrange(segments, order.as_slice());
    proof {
        assert forall|k: int, l: int| 0 <= k < l < sorted@.len() implies !key_before(
            #[trigger] segment_keys(sorted@)[l],
            #[trigger] segment_keys(sorted@)[k],
        ) by {
            let a = segment_keys(all)[order@[k] as int];
            let b = segment_keys(all)[order@[l] as int];
            assert(comes_before(segment_keys(all), order@[k] as int, order@[l] as int));
            lemma_bytes_total(a.0, b.0);
            assert(segment_keys(sorted@)[k] == a);
            assert(segment_keys(sorted@)[l] == b);
        }
    }
    sorted
}

} // verus!
