//! Which drawn graph parts stay when a row is redrawn.
//!
//! A part that stays keeps its running animation; only new parts grow.

use crate::text::same_text;
use vstd::prelude::*;

verus! {

/// Where one part of the redrawn row comes from.
#[derive(Debug, Clone, Copy, PartialEq, Eq, Structural)]
pub enum Part {
    /// The mounted part at this position stays.
    Retained(usize),
    /// The freshly drawn part is mounted.
    Fresh,
}

/// How the parts of a mounted row give way to those of the redrawn row.
#[derive(Debug, Clone, PartialEq, Eq)]
pub struct Patch {
    /// The source of each part of the redrawn row, in order.
    pub parts: Vec<Part>,
    /// The mounted parts that are removed.
    pub retired: Vec<usize>,
}

/// The contents of a list of keys.
pub open spec fn keys_of(keys: Seq<String>) -> Seq<Seq<char>> {
    Seq::new(keys.len(), |i: int| keys[i]@)
}

/// The last of the first `n` positions that holds a key.
pub open spec fn last_place(keys: Seq<Seq<char>>, key: Seq<char>, n: int) -> Option<int>
    decreases n,
{
    if n <= 0 {
        None
    } else if keys[n - 1] == key {
        Some(n - 1)
    } else {
        last_place(keys, key, n - 1)
    }
}

/// Where part `j` of the redrawn row comes from: the mounted part with its key,
/// unless an earlier part of the redrawn row has taken it.
pub open spec fn source(mounted: Seq<Seq<char>>, fresh: Seq<Seq<char>>, j: int) -> Part {
    match last_place(mounted, fresh[j], mounted.len() as int) {
        Some(i) => if last_place(fresh, fresh[j], j) is None {
            Part::Retained(i as usize)
        } else {
            Part::Fresh
        },
        None => Part::Fresh,
    }
}

/// Whether a mounted part is the one of its key, and the redrawn row has no such key.
pub open spec fn retires(mounted: Seq<Seq<char>>, fresh: Seq<Seq<char>>, i: int) -> bool {
    &&& last_place(mounted, mounted[i], mounted.len() as int) == Some(i)
    &&& last_place(fresh, mounted[i], fresh.len() as int) is None
}

/// The retired ones among the first `n` mounted parts.
pub open spec fn retired_below(
    mounted: Seq<Seq<char>>,
    fresh: Seq<Seq<char>>,
    n: int,
) -> Seq<int>
    decreases n,
{
    if n <= 0 {
        Seq::empty()
    } else if retires(mounted, fresh, n - 1) {
        retired_below(mounted, fresh, n - 1).push(n - 1)
    } else {
        retired_below(mounted, fresh, n - 1)
    }
}

fn last_place_of(keys: &Vec<String>, key: &str, n: usize) -> (place: Option<usize>)
    requires
        n <= keys@.len(),
    ensures
        match place {
            Some(place) => last_place(keys_of(keys@), key@, n as int) == Some(place as int)
                && place < n,
            None => last_place(keys_of(keys@), key@, n as int) is None,
        },
{
    let ghost all = keys_of(keys@);
    let mut i: usize = n;
    while i > 0
        invariant
            i <= n <= keys@.len(),
            all == keys_of(keys@),
            last_place(all, key@, n as int) == last_place(all, key@, i as int),
        decreases i,
    {
        assert(all[i - 1] == keys@[i - 1]@);
        if same_text(keys[i - 1].as_str(), key) {
            return Some(i - 1);
        }
        i = i - 1;
    }
    None
}

/// Plans how the parts of a mounted row give way to those of the redrawn row.
pub fn patch_plan(mounted: &Vec<String>, fresh: &Vec<String>) -> (patch: Patch)
    ensures
        patch.parts@.len() == fresh@.len(),
        forall|j: int|
            0 <= j < fresh@.len() ==> #[trigger] patch.parts@[j] == source(
                keys_of(mounted@),
                keys_of(fresh@),
                j,
            ),
        patch.retired@.len() == retired_below(
            keys_of(mounted@),
            keys_of(fresh@),
            mounted@.len() as int,
        ).len(),
        forall|k: int|
            0 <= k < patch.retired@.len() ==> #[trigger] patch.retired@[k] as int == retired_below(
                keys_of(mounted@),
                keys_of(fresh@),
                mounted@.len() as int,
            )[k],
{
    let ghost old_keys = keys_of(mounted@);
    let ghost new_keys = keys_of(fresh@);
    let mut parts: Vec<Part> = Vec::new();
    let mut j: usize = 0;
    while j < fresh.len()
        invariant
            j <= fresh.len(),
            parts@.len() == j,
            old_keys == keys_of(mounted@),
            new_keys == keys_of(fresh@),
            forall|k: int| 0 <= k < j ==> #[trigger] parts@[k] == source(old_keys, new_keys, k),
        decreases fresh.len() - j,
    {
        assert(new_keys[j as int] == fresh@[j as int]@);
        let part = match last_place_of(mounted, fresh[j].as_str(), mounted.len()) {
            Some(i) => match last_place_of(fresh, fresh[j].as_str(), j) {
                None => Part::Retained(i),
                Some(_) => Part::Fresh,
            },
            None => Part::Fresh,
        };
        parts.push(part);
        j = j + 1;
    }
    let mut retired: Vec<usize> = Vec::new();
    let mut i: usize = 0;
    while i < mounted.len()
        invariant
            i <= mounted.len(),
            old_keys == keys_of(mounted@),
            new_keys == keys_of(fresh@),
            retired@.len() == retired_below(old_keys, new_keys, i as int).len(),
            forall|k: int|
                0 <= k < retired@.len() ==> #[trigger] retired@[k] as int == retired_below(
                    old_keys,
                    new_keys,
                    i as int,
                )[k],
        decreases mounted.len() - i,
    {
        assert(old_keys[i as int] == mounted@[i as int]@);
        let last = last_place_of(mounted, mounted[i].as_str(), mounted.len());
        let current = match last {
            Some(place) => place == i,
            None => false,
        };
        if current && last_place_of(fresh, mounted[i].as_str(), fresh.len()).is_none() {
            retired.push(i);
        }
        i = i + 1;
    }
    Patch { parts, retired }
}

proof fn last_place_is_the_last(keys: Seq<Seq<char>>, key: Seq<char>, n: int, i: int)
    requires
        0 <= i < n <= keys.len(),
        keys[i] == key,
    ensures
        match last_place(keys, key, n) {
            Some(place) => i <= place < n && keys[place] == key,
            None => false,
        },
    decreases n,
{
    if keys[n - 1] != key {
        last_place_is_the_last(keys, key, n - 1, i);
    }
}

proof fn last_place_holds_the_key(keys: Seq<Seq<char>>, key: Seq<char>, n: int)
    requires
        n <= keys.len(),
    ensures
        match last_place(keys, key, n) {
            Some(place) => 0 <= place < n && keys[place] == key,
            None => forall|i: int| 0 <= i < n ==> #[trigger] keys[i] != key,
        },
    decreases n,
{
    if n > 0 && keys[n - 1] != key {
        last_place_holds_the_key(keys, key, n - 1);
    }
}

/// No mounted part is used twice, and a retained part keeps its key.
pub proof fn retained_parts_are_used_once(
    mounted: Seq<Seq<char>>,
    fresh: Seq<Seq<char>>,
    a: int,
    b: int,
)
    requires
        mounted.len() <= usize::MAX,
        0 <= a < fresh.len(),
        0 <= b < fresh.len(),
        source(mounted, fresh, a) is Retained,
    ensures
        mounted[source(mounted, fresh, a)->Retained_0 as int] == fresh[a],
        source(mounted, fresh, a) == source(mounted, fresh, b) ==> a == b,
{
    last_place_holds_the_key(mounted, fresh[a], mounted.len() as int);
    last_place_holds_the_key(mounted, fresh[b], mounted.len() as int);
    if source(mounted, fresh, a) == source(mounted, fresh, b) {
        assert(fresh[a] == fresh[b]);
        if a < b {
            last_place_is_the_last(fresh, fresh[b], b, a);
        } else if b < a {
            last_place_is_the_last(fresh, fresh[a], a, b);
        }
    }
}

/// A mounted part that holds its key last is retired if and only if no part of
/// the redrawn row retains it.
pub proof fn parts_are_retained_or_retired(
    mounted: Seq<Seq<char>>,
    fresh: Seq<Seq<char>>,
    i: int,
)
    requires
        mounted.len() <= usize::MAX,
        0 <= i < mounted.len(),
        last_place(mounted, mounted[i], mounted.len() as int) == Some(i),
    ensures
        retires(mounted, fresh, i) <==> forall|j: int|
            0 <= j < fresh.len() ==> #[trigger] source(mounted, fresh, j) != Part::Retained(
                i as usize,
            ),
{
    let key = mounted[i];
    last_place_holds_the_key(fresh, key, fresh.len() as int);
    if retires(mounted, fresh, i) {
        assert forall|j: int| 0 <= j < fresh.len() implies #[trigger] source(mounted, fresh, j)
            != Part::Retained(i as usize) by {
            last_place_holds_the_key(mounted, fresh[j], mounted.len() as int);
            assert(fresh[j] != key);
        }
    } else {
        let first = first_place(fresh, key, 0);
        last_place_holds_the_key(fresh, key, first);
        assert(source(mounted, fresh, first) == Part::Retained(i as usize));
    }
}

proof fn first_place(keys: Seq<Seq<char>>, key: Seq<char>, from: int) -> (place: int)
    requires
        0 <= from <= keys.len(),
        exists|i: int| from <= i < keys.len() && #[trigger] keys[i] == key,
        forall|i: int| 0 <= i < from ==> #[trigger] keys[i] != key,
    ensures
        0 <= place < keys.len(),
        keys[place] == key,
        forall|i: int| 0 <= i < place ==> #[trigger] keys[i] != key,
    decreases keys.len() - from,
{
    if keys[from] == key {
        from
    } else {
        first_place(keys, key, from + 1)
    }
}

/// The first part of the redrawn row with a key that is mounted retains the mounted part
/// that holds the key last; every other part is drawn afresh.
pub proof fn the_first_part_of_a_key_is_retained(
    mounted: Seq<Seq<char>>,
    fresh: Seq<Seq<char>>,
    i: int,
    j: int,
)
    requires
        mounted.len() <= usize::MAX,
        0 <= j < fresh.len(),
        -1 <= i < mounted.len(),
        i >= 0 ==> mounted[i] == fresh[j],
        forall|k: int| i < k < mounted.len() ==> #[trigger] mounted[k] != fresh[j],
    ensures
        source(mounted, fresh, j) == (if i >= 0 && (forall|k: int|
            0 <= k < j ==> #[trigger] fresh[k] != fresh[j]) {
            Part::Retained(i as usize)
        } else {
            Part::Fresh
        }),
{
    last_place_holds_the_key(mounted, fresh[j], mounted.len() as int);
    last_place_holds_the_key(fresh, fresh[j], j);
    if i >= 0 {
        last_place_is_the_last(mounted, fresh[j], mounted.len() as int, i);
    }
}

proof fn lemma_retired_below(mounted: Seq<Seq<char>>, fresh: Seq<Seq<char>>, n: int, i: int)
    requires
        0 <= n,
    ensures
        retired_below(mounted, fresh, n).contains(i) <==> 0 <= i < n && retires(mounted, fresh, i),
        forall|a: int, b: int|
            #![trigger retired_below(mounted, fresh, n)[a], retired_below(mounted, fresh, n)[b]]
            0 <= a < b < retired_below(mounted, fresh, n).len() ==> retired_below(
                mounted,
                fresh,
                n,
            )[a] < retired_below(mounted, fresh, n)[b],
        forall|a: int|
            0 <= a < retired_below(mounted, fresh, n).len() ==> 0 <= #[trigger] retired_below(
                mounted,
                fresh,
                n,
            )[a] < n,
    decreases n,
{
    if n > 0 {
        lemma_retired_below(mounted, fresh, n - 1, i);
        let before = retired_below(mounted, fresh, n - 1);
        if retires(mounted, fresh, n - 1) {
            assert(before.push(n - 1)[before.len() as int] == n - 1);
            if before.contains(i) {
                let k = choose|k: int| 0 <= k < before.len() && before[k] == i;
                assert(before.push(n - 1)[k] == i);
            }
            let all = before.push(n - 1);
            if all.contains(i) && i != n - 1 {
                let k = choose|k: int| 0 <= k < all.len() && all[k] == i;
                assert(before[k] == i);
            }
        }
    }
}

/// The parts that are removed are those that hold their key last among the mounted
/// parts, where no part of the redrawn row has the key. They are listed in order, each
/// one once.
pub proof fn removed_parts_have_no_successor(
    mounted: Seq<Seq<char>>,
    fresh: Seq<Seq<char>>,
    i: int,
)
    requires
        0 <= i < mounted.len(),
    ensures
        ({
            let removed = retired_below(mounted, fresh, mounted.len() as int);
            &&& removed.contains(i) <==> !fresh.contains(mounted[i]) && (forall|k: int|
                i < k < mounted.len() ==> #[trigger] mounted[k] != mounted[i])
            &&& forall|a: int, b: int|
                #![trigger removed[a], removed[b]]
                0 <= a < b < removed.len() ==> removed[a] < removed[b]
        }),
{
    let n = mounted.len() as int;
    let removed = retired_below(mounted, fresh, n);
    lemma_retired_below(mounted, fresh, n, i);
    last_place_is_the_last(mounted, mounted[i], n, i);
    last_place_holds_the_key(mounted, mounted[i], n);
    last_place_holds_the_key(fresh, mounted[i], fresh.len() as int);
    let last = last_place(mounted, mounted[i], n)->0;
    if forall|k: int| i < k < mounted.len() ==> #[trigger] mounted[k] != mounted[i] {
        assert(last == i);
    }
    if last == i {
        assert forall|k: int| i < k < mounted.len() implies #[trigger] mounted[k] != mounted[i] by {
            if mounted[k] == mounted[i] {
                last_place_is_the_last(mounted, mounted[i], n, k);
            }
        }
    }
}

} // verus!
