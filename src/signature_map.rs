use vstd::prelude::*;

use crate::hash::{hash_bytes, sha256_of};
use crate::text::{append_bytes, bytes_eq, copy_bytes, views};

verus! {

/// One entry as the contracts see it: seed hash, delegation hash, time it expires.
pub type SigRecord = (Seq<u8>, Seq<u8>, u64);

/// No two entries share a seed hash.
pub open spec fn keys_distinct(s: Seq<SigRecord>) -> bool {
    forall|i: int, j: int| 0 <= i < j < s.len() ==> #[trigger] s[i].0 != #[trigger] s[j].0
}

/// Whether some entry has the seed hash `k`.
pub open spec fn has_key(s: Seq<SigRecord>, k: Seq<u8>) -> bool {
    exists|i: int| 0 <= i < s.len() && #[trigger] s[i].0 == k
}

/// The entries without the one keyed `k`, order kept.
pub open spec fn without_key(s: Seq<SigRecord>, k: Seq<u8>) -> Seq<SigRecord>
    decreases s.len(),
{
    if s.len() == 0 {
        s
    } else if s.last().0 == k {
        without_key(s.drop_last(), k)
    } else {
        without_key(s.drop_last(), k).push(s.last())
    }
}

/// The entries after a put: any entry keyed `k` leaves, and the new one comes last.
pub open spec fn put_spec(s: Seq<SigRecord>, k: Seq<u8>, v: Seq<u8>, expires_at: u64) -> Seq<SigRecord> {
    without_key(s, k).push((k, v, expires_at))
}

/// The entries that putting each record of `s` in turn into an empty map leaves.
pub open spec fn built(s: Seq<SigRecord>) -> Seq<SigRecord>
    decreases s.len(),
{
    if s.len() == 0 {
        s
    } else {
        put_spec(built(s.drop_last()), s.last().0, s.last().1, s.last().2)
    }
}

/// The entries left after pruning at `now`: the first `max` entries, oldest first, that
/// expired before `now` leave; every other entry stays, in order.
pub open spec fn pruned(s: Seq<SigRecord>, now: u64, max: nat) -> Seq<SigRecord>
    decreases s.len(),
{
    if s.len() == 0 || max == 0 {
        s
    } else if s[0].2 < now {
        pruned(s.skip(1), now, (max - 1) as nat)
    } else {
        seq![s[0]] + pruned(s.skip(1), now, max)
    }
}

/// The records of three parallel columns.
pub open spec fn columns(seeds: Seq<Vec<u8>>, values: Seq<Vec<u8>>, expiries: Seq<u64>) -> Seq<SigRecord> {
    Seq::new(seeds.len(), |i: int| (seeds[i]@, values[i]@, expiries[i]))
}

/// The tag byte that starts the input of a leaf hash.
pub const LEAF_TAG: u8 = 0;

/// The tag byte that starts the input of an inner node's hash.
pub const NODE_TAG: u8 = 1;

/// The tag byte that is the whole input of the empty tree's hash.
pub const EMPTY_TAG: u8 = 2;

/// The leaf of a seed hash `k` whose delegation hash has the digest `d`: the digest of the
/// leaf tag, the digest of `k`, and `d`.
pub open spec fn leaf_from_digest(k: Seq<u8>, d: Seq<u8>) -> Seq<u8> {
    sha256_of(seq![LEAF_TAG] + sha256_of(k) + d)
}

/// The hash of one entry, built from digests of its seed hash and of its delegation hash,
/// so that a leaf can be recomputed without the delegation hash itself.
pub open spec fn leaf_of(k: Seq<u8>, v: Seq<u8>) -> Seq<u8> {
    leaf_from_digest(k, sha256_of(v))
}

/// The hash of an inner node over the roots of its two halves.
pub open spec fn node_of(l: Seq<u8>, r: Seq<u8>) -> Seq<u8> {
    sha256_of(seq![NODE_TAG] + l + r)
}

/// The commitment of the empty map.
pub open spec fn empty_root() -> Seq<u8> {
    sha256_of(seq![EMPTY_TAG])
}

/// The leaf hashes of the entries, in order.
pub open spec fn leaves_of(s: Seq<SigRecord>) -> Seq<Seq<u8>> {
    Seq::new(s.len(), |i: int| leaf_of(s[i].0, s[i].1))
}

/// The commitment over the entries: the root of the balanced tree over their leaves, in
/// order.
pub open spec fn commit(s: Seq<SigRecord>) -> Seq<u8> {
    mroot(leaves_of(s))
}

/// Proof for one key against a root: either its delegation hash with the siblings on the
/// way from its leaf to the root, or the seed hash of every entry with the digest of its
/// delegation hash (never the delegation hash itself), none of which has the key.
pub enum Witness {
    Member { value: Vec<u8>, path: Vec<(Vec<u8>, bool)> },
    Absent { seeds: Vec<Vec<u8>>, value_digests: Vec<Vec<u8>> },
}

/// The records that an absence witness lists: seed hash and value digest.
pub open spec fn absent_records(seeds: Seq<Vec<u8>>, digests: Seq<Vec<u8>>) -> Seq<SigRecord> {
    Seq::new(seeds.len(), |i: int| (seeds[i]@, digests[i]@, 0u64))
}

/// The leaves of records that carry value digests.
pub open spec fn digest_leaves(s: Seq<SigRecord>) -> Seq<Seq<u8>> {
    Seq::new(s.len(), |i: int| leaf_from_digest(s[i].0, s[i].1))
}

/// Whether `w` proves that `key` maps to `value` under `root`.
pub open spec fn proves_member(w: Witness, key: Seq<u8>, value: Seq<u8>, root: Seq<u8>) -> bool {
    match w {
        Witness::Member { value: v, path } => v@ == value && climb(leaf_of(key, v@), path_view(path@)) == root,
        Witness::Absent { .. } => false,
    }
}

/// Whether `w` proves that no entry under `root` has the key `key`.
pub open spec fn proves_absent(w: Witness, key: Seq<u8>, root: Seq<u8>) -> bool {
    match w {
        Witness::Member { .. } => false,
        Witness::Absent { seeds, value_digests } => seeds@.len() == value_digests@.len() && !has_key(
            absent_records(seeds@, value_digests@),
            key,
        ) && mroot(digest_leaves(absent_records(seeds@, value_digests@))) == root,
    }
}

proof fn lemma_without_key_absent(s: Seq<SigRecord>, k: Seq<u8>)
    requires
        !has_key(s, k),
    ensures
        without_key(s, k) == s,
    decreases s.len(),
{
    if s.len() > 0 {
        assert(s[s.len() - 1].0 != k);
        assert(!has_key(s.drop_last(), k)) by {
            if has_key(s.drop_last(), k) {
                let i = choose|i: int| 0 <= i < s.drop_last().len() && #[trigger] s.drop_last()[i].0 == k;
                assert(s[i].0 == k);
            }
        };
        lemma_without_key_absent(s.drop_last(), k);
        assert(s.drop_last().push(s.last()) =~= s);
    }
}

proof fn lemma_without_key_at(s: Seq<SigRecord>, k: Seq<u8>, i: int)
    requires
        keys_distinct(s),
        0 <= i < s.len(),
        s[i].0 == k,
    ensures
        without_key(s, k) == s.remove(i),
    decreases s.len(),
{
    let d = s.drop_last();
    if i == s.len() - 1 {
        assert(!has_key(d, k)) by {
            if has_key(d, k) {
                let j = choose|j: int| 0 <= j < d.len() && #[trigger] d[j].0 == k;
                assert(s[j].0 == s[i].0);
            }
        };
        lemma_without_key_absent(d, k);
        assert(s.remove(i) =~= d);
    } else {
        assert(s.last().0 != k) by {
            assert(s[i].0 != s[s.len() - 1].0);
        };
        assert(keys_distinct(d)) by {
            assert forall|a: int, b: int| 0 <= a < b < d.len() implies #[trigger] d[a].0 != #[trigger] d[b].0 by {
                assert(s[a].0 != s[b].0);
            };
        };
        lemma_without_key_at(d, k, i);
        assert(d.remove(i).push(s.last()) =~= s.remove(i));
    }
}

proof fn lemma_built_distinct(s: Seq<SigRecord>)
    requires
        keys_distinct(s),
    ensures
        built(s) == s,
    decreases s.len(),
{
    if s.len() > 0 {
        let d = s.drop_last();
        assert(keys_distinct(d)) by {
            assert forall|a: int, b: int| 0 <= a < b < d.len() implies #[trigger] d[a].0 != #[trigger] d[b].0 by {
                assert(s[a].0 != s[b].0);
            };
        };
        lemma_built_distinct(d);
        assert(!has_key(d, s.last().0)) by {
            if has_key(d, s.last().0) {
                let j = choose|j: int| 0 <= j < d.len() && #[trigger] d[j].0 == s.last().0;
                assert(s[j].0 != s[s.len() - 1].0);
            }
        };
        lemma_without_key_absent(d, s.last().0);
        assert(d.push((s.last().0, s.last().1, s.last().2)) =~= s);
    }
}

proof fn lemma_pruned_keys(s: Seq<SigRecord>, now: u64, max: nat)
    requires
        keys_distinct(s),
    ensures
        keys_distinct(pruned(s, now, max)),
        forall|k: Seq<u8>| has_key(pruned(s, now, max), k) ==> has_key(s, k),
    decreases s.len(),
{
    if s.len() > 0 && max > 0 {
        let t = s.skip(1);
        assert(keys_distinct(t)) by {
            assert forall|a: int, b: int| 0 <= a < b < t.len() implies #[trigger] t[a].0 != #[trigger] t[b].0 by {
                assert(s[a + 1].0 != s[b + 1].0);
            };
        };
        let m: nat = if s[0].2 < now { (max - 1) as nat } else { max };
        lemma_pruned_keys(t, now, m);
        let p = pruned(t, now, m);
        assert forall|k: Seq<u8>| has_key(t, k) implies has_key(s, k) by {
            let j = choose|j: int| 0 <= j < t.len() && #[trigger] t[j].0 == k;
            assert(s[j + 1].0 == k);
        };
        if !(s[0].2 < now) {
            let q = seq![s[0]] + p;
            assert(!has_key(p, s[0].0)) by {
                if has_key(p, s[0].0) {
                    assert(has_key(t, s[0].0));
                    let j = choose|j: int| 0 <= j < t.len() && #[trigger] t[j].0 == s[0].0;
                    assert(s[0].0 != s[j + 1].0);
                }
            };
            assert forall|a: int, b: int| 0 <= a < b < q.len() implies #[trigger] q[a].0 != #[trigger] q[b].0 by {
                if a == 0 {
                    assert(q[b] == p[b - 1]);
                    if q[b].0 == s[0].0 {
                        assert(has_key(p, s[0].0));
                    }
                } else {
                    assert(q[a] == p[a - 1] && q[b] == p[b - 1]);
                }
            };
            assert forall|k: Seq<u8>| has_key(q, k) implies has_key(s, k) by {
                let j = choose|j: int| 0 <= j < q.len() && #[trigger] q[j].0 == k;
                if j == 0 {
                    assert(s[0].0 == k);
                } else {
                    assert(p[j - 1].0 == k);
                    assert(has_key(p, k));
                }
            };
        }
    }
}

/// Pruning keeps the order of the surviving entries: the map that remains has the
/// commitment of a map built afresh by putting those entries, in the same order, into an
/// empty map.
pub proof fn lemma_prune_root_matches_fresh(s: Seq<SigRecord>, now: u64, max: nat)
    requires
        keys_distinct(s),
    ensures
        commit(pruned(built(s), now, max)) == commit(built(pruned(s, now, max))),
{
    lemma_built_distinct(s);
    lemma_pruned_keys(s, now, max);
    lemma_built_distinct(pruned(s, now, max));
}

fn leaf_with_digest(k: &Vec<u8>, d: &Vec<u8>) -> (r: Vec<u8>)
    ensures
        r@ == leaf_from_digest(k@, d@),
{
    let mut data: Vec<u8> = Vec::new();
    data.push(LEAF_TAG);
    append_bytes(&mut data, &hash_bytes(k));
    append_bytes(&mut data, d);
    assert(data@ =~= seq![LEAF_TAG] + sha256_of(k@) + d@);
    hash_bytes(&data)
}

fn leaf(k: &Vec<u8>, v: &Vec<u8>) -> (r: Vec<u8>)
    ensures
        r@ == leaf_of(k@, v@),
{
    leaf_with_digest(k, &hash_bytes(v))
}

fn step(l: &Vec<u8>, r: &Vec<u8>) -> (h: Vec<u8>)
    ensures
        h@ == node_of(l@, r@),
{
    let mut data: Vec<u8> = Vec::new();
    data.push(NODE_TAG);
    append_bytes(&mut data, l);
    append_bytes(&mut data, r);
    assert(data@ =~= seq![NODE_TAG] + l@ + r@);
    hash_bytes(&data)
}

fn empty_root_vec() -> (r: Vec<u8>)
    ensures
        r@ == empty_root(),
{
    let mut data: Vec<u8> = Vec::new();
    data.push(EMPTY_TAG);
    assert(data@ =~= seq![EMPTY_TAG]);
    hash_bytes(&data)
}

/// Whether `w` proves that `key` maps to `value` under `root`.
pub fn verify_membership(w: &Witness, key: &Vec<u8>, value: &Vec<u8>, root: &Vec<u8>) -> (r: bool)
    ensures
        r == proves_member(*w, key@, value@, root@),
{
    match w {
        Witness::Member { value: v, path } => {
            if !bytes_eq(v, value) {
                return false;
            }
            let got = climb_path(leaf(key, v), path);
            bytes_eq(&got, root)
        },
        Witness::Absent { .. } => false,
    }
}

/// Whether the listed entries leave out `key` and commit to `root`.
fn absent_list_proves(seeds: &Vec<Vec<u8>>, digests: &Vec<Vec<u8>>, key: &Vec<u8>, root: &Vec<u8>) -> (r: bool)
    ensures
        r == (seeds@.len() == digests@.len() && !has_key(absent_records(seeds@, digests@), key@)
            && mroot(digest_leaves(absent_records(seeds@, digests@))) == root@),
{
    if seeds.len() != digests.len() {
        return false;
    }
    let ghost recs = absent_records(seeds@, digests@);
    let mut leaves: Vec<Vec<u8>> = Vec::new();
    let mut i: usize = 0;
    while i < seeds.len()
        invariant
            seeds@.len() == digests@.len(),
            recs == absent_records(seeds@, digests@),
            i <= seeds@.len(),
            views(leaves@) == digest_leaves(recs).subrange(0, i as int),
            forall|j: int| 0 <= j < i ==> #[trigger] recs[j].0 != key@,
        decreases seeds@.len() - i,
    {
        assert(recs[i as int] == (seeds@[i as int]@, digests@[i as int]@, 0u64));
        if bytes_eq(&seeds[i], key) {
            assert(recs[i as int].0 == key@);
            return false;
        }
        let ghost prev = leaves@;
        let l = leaf_with_digest(&seeds[i], &digests[i]);
        leaves.push(l);
        assert(leaves@ == prev.push(l));
        assert(views(prev).len() == prev.len());
        assert(recs.len() == seeds@.len());
        assert(digest_leaves(recs).len() == recs.len());
        assert(views(prev).len() == i);
        assert(prev.len() == i);
        assert forall|j: int| 0 <= j < i + 1 implies #[trigger] views(leaves@)[j] == digest_leaves(recs)[j] by {
            if j < i {
                assert(leaves@[j] == prev[j]);
                assert(views(prev)[j] == digest_leaves(recs).subrange(0, i as int)[j]);
            }
        };
        assert(views(leaves@) =~= digest_leaves(recs).subrange(0, i + 1));
        i = i + 1;
    }
    assert(!has_key(recs, key@));
    assert(digest_leaves(recs).subrange(0, i as int) =~= digest_leaves(recs));
    assert(views(leaves@).subrange(0, leaves@.len() as int) =~= views(leaves@));
    let got = subtree_root(&leaves, 0, leaves.len());
    bytes_eq(&got, root)
}

/// Whether `w` proves that no entry under `root` has the key `key`.
pub fn verify_absence(w: &Witness, key: &Vec<u8>, root: &Vec<u8>) -> (r: bool)
    ensures
        r == proves_absent(*w, key@, root@),
{
    match w {
        Witness::Member { .. } => false,
        Witness::Absent { seeds, value_digests } => absent_list_proves(seeds, value_digests, key, root),
    }
}

/// The root of the balanced tree over `ls`: a single leaf is its own root, a longer run
/// hashes the roots of its first half and of the rest.
pub open spec fn mroot(ls: Seq<Seq<u8>>) -> Seq<u8>
    decreases ls.len(),
{
    if ls.len() == 0 {
        empty_root()
    } else if ls.len() == 1 {
        ls[0]
    } else {
        node_of(mroot(ls.subrange(0, ls.len() as int / 2)), mroot(ls.subrange(ls.len() as int / 2, ls.len() as int)))
    }
}

/// One step up the tree: the sibling's root, and whether the sibling stands on the left.
pub type PathStep = (Seq<u8>, bool);

/// The node above `acc` and its sibling `st`.
pub open spec fn up(acc: Seq<u8>, st: PathStep) -> Seq<u8> {
    if st.1 {
        node_of(st.0, acc)
    } else {
        node_of(acc, st.0)
    }
}

/// The root reached from `acc` by climbing `path`, leaf end first.
pub open spec fn climb(acc: Seq<u8>, path: Seq<PathStep>) -> Seq<u8>
    decreases path.len(),
{
    if path.len() == 0 {
        acc
    } else {
        up(climb(acc, path.drop_last()), path.last())
    }
}

/// The siblings on the way from leaf `i` of `ls` to the root, leaf end first.
pub open spec fn mpath(ls: Seq<Seq<u8>>, i: int) -> Seq<PathStep>
    decreases ls.len(),
{
    if ls.len() <= 1 {
        Seq::empty()
    } else {
        let h = ls.len() as int / 2;
        if i < h {
            mpath(ls.subrange(0, h), i).push((mroot(ls.subrange(h, ls.len() as int)), false))
        } else {
            mpath(ls.subrange(h, ls.len() as int), i - h).push((mroot(ls.subrange(0, h)), true))
        }
    }
}

/// Climbing from leaf `i` along its path reaches the root.
pub proof fn lemma_mpath_climbs(ls: Seq<Seq<u8>>, i: int)
    requires
        0 <= i < ls.len(),
    ensures
        climb(ls[i], mpath(ls, i)) == mroot(ls),
    decreases ls.len(),
{
    if ls.len() > 1 {
        let h = ls.len() as int / 2;
        let l = ls.subrange(0, h);
        let r = ls.subrange(h, ls.len() as int);
        if i < h {
            assert(l[i] == ls[i]);
            lemma_mpath_climbs(l, i);
            let st = (mroot(r), false);
            assert(mpath(l, i).push(st).drop_last() =~= mpath(l, i));
        } else {
            assert(r[i - h] == ls[i]);
            lemma_mpath_climbs(r, i - h);
            let st = (mroot(l), true);
            assert(mpath(r, i - h).push(st).drop_last() =~= mpath(r, i - h));
        }
    }
}

/// The views of a path as the contracts see it.
pub open spec fn path_view(p: Seq<(Vec<u8>, bool)>) -> Seq<PathStep> {
    Seq::new(p.len(), |k: int| (p[k].0@, p[k].1))
}

/// The root of the tree over `leaves[lo..hi]`.
fn subtree_root(leaves: &Vec<Vec<u8>>, lo: usize, hi: usize) -> (r: Vec<u8>)
    requires
        lo <= hi <= leaves@.len(),
    ensures
        r@ == mroot(views(leaves@).subrange(lo as int, hi as int)),
    decreases hi - lo,
{
    let ghost ls = views(leaves@).subrange(lo as int, hi as int);
    if hi == lo {
        empty_root_vec()
    } else if hi - lo == 1 {
        copy_bytes(&leaves[lo])
    } else {
        let h = (hi - lo) / 2;
        let left = subtree_root(leaves, lo, lo + h);
        let right = subtree_root(leaves, lo + h, hi);
        assert(ls.subrange(0, h as int) =~= views(leaves@).subrange(lo as int, (lo + h) as int));
        assert(ls.subrange(h as int, ls.len() as int) =~= views(leaves@).subrange((lo + h) as int, hi as int));
        step(&left, &right)
    }
}

/// Appends to `out` the path from leaf `i` of `leaves[lo..hi]` to that subtree's root.
fn subtree_path(leaves: &Vec<Vec<u8>>, lo: usize, hi: usize, i: usize, out: &mut Vec<(Vec<u8>, bool)>)
    requires
        lo <= i < hi <= leaves@.len(),
    ensures
        path_view(final(out)@) == path_view(old(out)@) + mpath(views(leaves@).subrange(lo as int, hi as int), i - lo),
    decreases hi - lo,
{
    let ghost ls = views(leaves@).subrange(lo as int, hi as int);
    if hi - lo == 1 {
        assert(path_view(out@) =~= path_view(out@) + mpath(ls, i - lo));
    } else {
        let h = (hi - lo) / 2;
        assert(ls.subrange(0, h as int) =~= views(leaves@).subrange(lo as int, (lo + h) as int));
        assert(ls.subrange(h as int, ls.len() as int) =~= views(leaves@).subrange((lo + h) as int, hi as int));
        let ghost before = path_view(out@);
        if i < lo + h {
            subtree_path(leaves, lo, lo + h, i, out);
            let sib = subtree_root(leaves, lo + h, hi);
            let ghost mid = path_view(out@);
            out.push((sib, false));
            assert(path_view(out@) =~= mid.push((sib@, false)));
        } else {
            subtree_path(leaves, lo + h, hi, i, out);
            let sib = subtree_root(leaves, lo, lo + h);
            let ghost mid = path_view(out@);
            out.push((sib, true));
            assert(path_view(out@) =~= mid.push((sib@, true)));
        }
        assert(path_view(out@) =~= before + mpath(ls, i - lo));
    }
}

/// Climbs from `acc` along `path`.
fn climb_path(acc: Vec<u8>, path: &Vec<(Vec<u8>, bool)>) -> (r: Vec<u8>)
    ensures
        r@ == climb(acc@, path_view(path@)),
{
    let mut acc = acc;
    let ghost start = acc@;
    let mut i: usize = 0;
    while i < path.len()
        invariant
            i <= path@.len(),
            acc@ == climb(start, path_view(path@).subrange(0, i as int)),
        decreases path@.len() - i,
    {
        let (sib, left) = (&path[i].0, path[i].1);
        acc = if left { step(sib, &acc) } else { step(&acc, sib) };
        assert(path_view(path@).subrange(0, i + 1).drop_last() =~= path_view(path@).subrange(0, i as int));
        i = i + 1;
    }
    assert(path_view(path@).subrange(0, i as int) =~= path_view(path@));
    acc
}

/// The map of active delegations: seed hash to delegation hash, in order of insertion, each
/// entry with the time after which pruning may remove it.
pub struct SignatureMap {
    seeds: Vec<Vec<u8>>,
    values: Vec<Vec<u8>>,
    expiries: Vec<u64>,
}

impl View for SignatureMap {
    type V = Seq<SigRecord>;

    closed spec fn view(&self) -> Seq<SigRecord> {
        Seq::new(self.seeds@.len(), |i: int| (self.seeds@[i]@, self.values@[i]@, self.expiries@[i]))
    }
}

impl SignatureMap {
    /// The three columns have one length and no seed hash occurs twice.
    pub closed spec fn wf(&self) -> bool {
        &&& self.seeds@.len() == self.values@.len()
        &&& self.seeds@.len() == self.expiries@.len()
        &&& keys_distinct(self@)
    }

    /// A well-formed map holds no seed hash twice.
    pub proof fn lemma_keys_distinct(&self)
        requires
            self.wf(),
        ensures
            keys_distinct(self@),
    {
    }

    /// An empty map.
    pub fn new() -> (r: SignatureMap)
        ensures
            r.wf(),
            r@ == Seq::<SigRecord>::empty(),
    {
        let r = SignatureMap { seeds: Vec::new(), values: Vec::new(), expiries: Vec::new() };
        assert(r@ =~= Seq::<SigRecord>::empty());
        r
    }

    /// The number of entries.
    pub fn len(&self) -> (r: usize)
        requires
            self.wf(),
        ensures
            r == self@.len(),
    {
        self.seeds.len()
    }

    fn find(&self, key: &Vec<u8>) -> (r: Option<usize>)
        requires
            self.wf(),
        ensures
            match r {
                Some(i) => i < self@.len() && self@[i as int].0 == key@,
                None => !has_key(self@, key@),
            },
    {
        let mut i: usize = 0;
        while i < self.seeds.len()
            invariant
                self.wf(),
                i <= self@.len(),
                forall|j: int| 0 <= j < i ==> #[trigger] self@[j].0 != key@,
            decreases self@.len() - i,
        {
            if bytes_eq(&self.seeds[i], key) {
                return Some(i);
            }
            i = i + 1;
        }
        None
    }

    /// Maps `seed_hash` to `delegation_hash`, replacing any earlier entry for it; the entry
    /// comes last and may be pruned once `expires_at` has passed.
    pub fn put(&mut self, seed_hash: Vec<u8>, delegation_hash: Vec<u8>, expires_at: u64)
        requires
            old(self).wf(),
        ensures
            final(self).wf(),
            final(self)@ == put_spec(old(self)@, seed_hash@, delegation_hash@, expires_at),
    {
        let ghost k = seed_hash@;
        match self.find(&seed_hash) {
            Some(i) => {
                self.seeds.remove(i);
                self.values.remove(i);
                self.expiries.remove(i);
                proof {
                    let o = old(self)@;
                    assert(self@ =~= o.remove(i as int));
                    lemma_without_key_at(o, k, i as int);
                    assert forall|a: int, b: int| 0 <= a < b < self@.len() implies #[trigger] self@[a].0 != #[trigger] self@[b].0 by {
                        let oa = if a < i { a } else { a + 1 };
                        let ob = if b < i { b } else { b + 1 };
                        assert(o[oa].0 != o[ob].0);
                    };
                    assert(!has_key(self@, k)) by {
                        if has_key(self@, k) {
                            let j = choose|j: int| 0 <= j < self@.len() && #[trigger] self@[j].0 == k;
                            let oj = if j < i { j } else { j + 1 };
                            assert(o[oj].0 != o[i as int].0);
                        }
                    };
                }
            },
            None => {
                proof {
                    lemma_without_key_absent(old(self)@, k);
                }
            },
        }
        let ghost mid = self@;
        self.seeds.push(seed_hash);
        self.values.push(delegation_hash);
        self.expiries.push(expires_at);
        assert(self@ =~= mid.push((k, self.values@.last()@, expires_at)));
        assert(keys_distinct(self@)) by {
            assert forall|a: int, b: int| 0 <= a < b < self@.len() implies #[trigger] self@[a].0 != #[trigger] self@[b].0 by {
                if b == mid.len() {
                    assert(mid[a].0 != k);
                } else {
                    assert(mid[a].0 != mid[b].0);
                }
            };
        };
    }

    /// Removes expired entries, oldest first: at most `max_to_prune` of those that expired
    /// before `now`; entries that have not expired stay, wherever they stand.
    pub fn prune_expired(&mut self, now: u64, max_to_prune: usize)
        requires
            old(self).wf(),
        ensures
            final(self).wf(),
            final(self)@ == pruned(old(self)@, now, max_to_prune as nat),
    {
        let ghost s = self@;
        let mut seeds: Vec<Vec<u8>> = Vec::new();
        let mut values: Vec<Vec<u8>> = Vec::new();
        let mut expiries: Vec<u64> = Vec::new();
        let mut removed: usize = 0;
        let mut i: usize = 0;
        assert(s.skip(0) =~= s);
        assert(columns(seeds@, values@, expiries@) + s =~= s);
        while i < self.seeds.len()
            invariant
                self.wf(),
                self@ == s,
                i <= s.len(),
                removed <= max_to_prune,
                seeds@.len() == values@.len(),
                seeds@.len() == expiries@.len(),
                columns(seeds@, values@, expiries@) + pruned(s.skip(i as int), now, (max_to_prune - removed) as nat)
                    == pruned(s, now, max_to_prune as nat),
            decreases s.len() - i,
        {
            let ghost t = s.skip(i as int);
            let ghost before = columns(seeds@, values@, expiries@);
            assert(s[i as int] == (self.seeds@[i as int]@, self.values@[i as int]@, self.expiries@[i as int]));
            assert(t[0] == s[i as int]);
            assert(t.skip(1) =~= s.skip(i + 1));
            if removed < max_to_prune && self.expiries[i] < now {
                removed = removed + 1;
            } else {
                seeds.push(copy_bytes(&self.seeds[i]));
                values.push(copy_bytes(&self.values[i]));
                expiries.push(self.expiries[i]);
                assert(columns(seeds@, values@, expiries@) =~= before.push(s[i as int]));
                if removed == max_to_prune {
                    assert(t =~= seq![t[0]] + t.skip(1));
                }
                assert(before.push(s[i as int]) + pruned(s.skip(i + 1), now, (max_to_prune - removed) as nat)
                    =~= before + (seq![t[0]] + pruned(t.skip(1), now, (max_to_prune - removed) as nat)));
            }
            i = i + 1;
        }
        assert(s.skip(i as int) =~= Seq::<SigRecord>::empty());
        assert(columns(seeds@, values@, expiries@) + Seq::<SigRecord>::empty() =~= columns(seeds@, values@, expiries@));
        self.seeds = seeds;
        self.values = values;
        self.expiries = expiries;
        assert(self@ =~= columns(self.seeds@, self.values@, self.expiries@));
        proof {
            lemma_pruned_keys(s, now, max_to_prune as nat);
        }
    }

    fn leaves(&self) -> (r: Vec<Vec<u8>>)
        requires
            self.wf(),
        ensures
            views(r@) == leaves_of(self@),
    {
        let mut r: Vec<Vec<u8>> = Vec::new();
        let mut i: usize = 0;
        while i < self.seeds.len()
            invariant
                self.wf(),
                i <= self@.len(),
                views(r@) == leaves_of(self@).subrange(0, i as int),
            decreases self@.len() - i,
        {
            let ghost prev = r@;
            assert(self@[i as int] == (self.seeds@[i as int]@, self.values@[i as int]@, self.expiries@[i as int]));
            r.push(leaf(&self.seeds[i], &self.values[i]));
            assert(views(prev).len() == prev.len());
            assert forall|a: int| 0 <= a < r@.len() implies #[trigger] views(r@)[a] == leaves_of(self@).subrange(0, i + 1)[a] by {
                if a < prev.len() {
                    assert(r@[a] == prev[a]);
                    assert(views(prev)[a] == leaves_of(self@).subrange(0, i as int)[a]);
                }
            };
            assert(views(r@) =~= leaves_of(self@).subrange(0, i + 1));
            i = i + 1;
        }
        assert(leaves_of(self@).subrange(0, i as int) =~= leaves_of(self@));
        r
    }

    /// The commitment over the current entries.
    pub fn root(&self) -> (r: Vec<u8>)
        requires
            self.wf(),
        ensures
            r@ == commit(self@),
    {
        let leaves = self.leaves();
        assert(views(leaves@).subrange(0, leaves@.len() as int) =~= views(leaves@));
        subtree_root(&leaves, 0, leaves.len())
    }

    /// A proof for `key` against the current commitment: of its delegation hash when the map
    /// holds the key, else of its absence.
    pub fn witness(&self, key: &Vec<u8>) -> (r: Witness)
        requires
            self.wf(),
        ensures
            forall|i: int|
                0 <= i < self@.len() && #[trigger] self@[i].0 == key@ ==> proves_member(r, key@, self@[i].1, commit(self@)),
            !has_key(self@, key@) ==> proves_absent(r, key@, commit(self@)),
    {
        let ghost s = self@;
        let ghost ls = leaves_of(s);
        match self.find(key) {
            Some(i) => {
                let leaves = self.leaves();
                let mut path: Vec<(Vec<u8>, bool)> = Vec::new();
                assert(views(leaves@).subrange(0, leaves@.len() as int) =~= views(leaves@));
                subtree_path(&leaves, 0, leaves.len(), i, &mut path);
                let value = copy_bytes(&self.values[i]);
                proof {
                    assert(path_view(Seq::<(Vec<u8>, bool)>::empty()) =~= Seq::<PathStep>::empty());
                    assert(path_view(path@) =~= mpath(ls, i as int));
                    lemma_mpath_climbs(ls, i as int);
                    assert(s[i as int] == (self.seeds@[i as int]@, self.values@[i as int]@, self.expiries@[i as int]));
                    assert(ls[i as int] == leaf_of(key@, value@));
                    assert forall|q: int| 0 <= q < s.len() && #[trigger] s[q].0 == key@ implies q == i by {
                        if q != i {
                            if q < i {
                                assert(s[q].0 != s[i as int].0);
                            } else {
                                assert(s[i as int].0 != s[q].0);
                            }
                        }
                    };
                }
                Witness::Member { value, path }
            },
            None => {
                let mut seeds: Vec<Vec<u8>> = Vec::new();
                let mut values: Vec<Vec<u8>> = Vec::new();
                let mut j: usize = 0;
                while j < self.seeds.len()
                    invariant
                        self.wf(),
                        self@ == s,
                        j <= s.len(),
                        seeds@.len() == j,
                        values@.len() == j,
                        forall|a: int| 0 <= a < j ==> (#[trigger] seeds@[a])@ == s[a].0 && values@[a]@ == sha256_of(s[a].1),
                    decreases s.len() - j,
                {
                    assert(s[j as int] == (self.seeds@[j as int]@, self.values@[j as int]@, self.expiries@[j as int]));
                    seeds.push(copy_bytes(&self.seeds[j]));
                    let d = hash_bytes(&self.values[j]);
                    assert(d@ == sha256_of(s[j as int].1));
                    values.push(d);
                    j = j + 1;
                }
                proof {
                    let recs = absent_records(seeds@, values@);
                    assert(digest_leaves(recs) =~= leaves_of(s));
                    assert(!has_key(recs, key@)) by {
                        if has_key(recs, key@) {
                            let q = choose|q: int| 0 <= q < recs.len() && #[trigger] recs[q].0 == key@;
                            assert(s[q].0 == key@);
                        }
                    };
                }
                Witness::Absent { seeds, value_digests: values }
            },
        }
    }
}

/// SHA-256 as a collision-free function: equal digests come from equal inputs.
pub open spec fn hash_injective() -> bool {
    forall|a: Seq<u8>, b: Seq<u8>| #[trigger] sha256_of(a) == #[trigger] sha256_of(b) ==> a == b
}

/// Every SHA-256 digest is 32 bytes long.
pub open spec fn hash_len() -> bool {
    forall|a: Seq<u8>| (#[trigger] sha256_of(a)).len() == 32
}

/// `h` is the hash of a leaf.
pub open spec fn is_leaf_hash(h: Seq<u8>) -> bool {
    exists|x: Seq<u8>| h == sha256_of(seq![LEAF_TAG] + x)
}

/// Every element of `ls` is the hash of a leaf.
pub open spec fn leafy(ls: Seq<Seq<u8>>) -> bool {
    forall|i: int| 0 <= i < ls.len() ==> is_leaf_hash(#[trigger] ls[i])
}

proof fn lemma_split(t: u8, a: Seq<u8>, b: Seq<u8>, c: Seq<u8>, d: Seq<u8>)
    requires
        seq![t] + a + b == seq![t] + c + d,
        a.len() == c.len(),
    ensures
        a == c,
        b == d,
{
    let x = seq![t] + a + b;
    assert(a =~= x.subrange(1, 1 + a.len() as int));
    assert(c =~= (seq![t] + c + d).subrange(1, 1 + c.len() as int));
    assert(b =~= x.subrange(1 + a.len() as int, x.len() as int));
    assert(d =~= (seq![t] + c + d).subrange(1 + c.len() as int, x.len() as int));
}

proof fn lemma_tags_differ(t: u8, a: Seq<u8>, u: u8, b: Seq<u8>)
    requires
        hash_injective(),
        t != u,
    ensures
        sha256_of(seq![t] + a) != sha256_of(seq![u] + b),
{
    if sha256_of(seq![t] + a) == sha256_of(seq![u] + b) {
        assert((seq![t] + a)[0] == (seq![u] + b)[0]);
    }
}

proof fn lemma_leaf_not_tagged(h: Seq<u8>, u: u8, b: Seq<u8>)
    requires
        hash_injective(),
        is_leaf_hash(h),
        u != LEAF_TAG,
    ensures
        h != sha256_of(seq![u] + b),
{
    let x = choose|x: Seq<u8>| h == sha256_of(seq![LEAF_TAG] + x);
    lemma_tags_differ(LEAF_TAG, x, u, b);
}

proof fn lemma_empty_root_tag(u: u8, b: Seq<u8>)
    requires
        hash_injective(),
        u != EMPTY_TAG,
    ensures
        empty_root() != sha256_of(seq![u] + b),
{
    assert(seq![EMPTY_TAG] =~= seq![EMPTY_TAG] + Seq::<u8>::empty());
    lemma_tags_differ(EMPTY_TAG, Seq::<u8>::empty(), u, b);
}

proof fn lemma_leafy_halves(ls: Seq<Seq<u8>>, h: int)
    requires
        leafy(ls),
        0 <= h <= ls.len(),
    ensures
        leafy(ls.subrange(0, h)),
        leafy(ls.subrange(h, ls.len() as int)),
{
    assert forall|i: int| 0 <= i < h implies is_leaf_hash(#[trigger] ls.subrange(0, h)[i]) by {
        assert(ls.subrange(0, h)[i] == ls[i]);
    };
    assert forall|i: int| 0 <= i < ls.len() - h implies is_leaf_hash(#[trigger] ls.subrange(h, ls.len() as int)[i]) by {
        assert(ls.subrange(h, ls.len() as int)[i] == ls[i + h]);
    };
}

proof fn lemma_mroot_len(ls: Seq<Seq<u8>>)
    requires
        hash_len(),
        leafy(ls),
    ensures
        mroot(ls).len() == 32,
    decreases ls.len(),
{
    if ls.len() == 1 {
        assert(is_leaf_hash(ls[0]));
    } else if ls.len() > 1 {
        lemma_leafy_halves(ls, ls.len() as int / 2);
    }
}

/// A run of at least two leaves has a root unlike that of a shorter run.
proof fn lemma_root_shapes(a: Seq<Seq<u8>>, b: Seq<Seq<u8>>)
    requires
        hash_injective(),
        leafy(a),
        leafy(b),
        a.len() >= 2 || (a.len() == 1 && b.len() == 0),
        b.len() < a.len(),
        b.len() <= 1,
    ensures
        mroot(a) != mroot(b),
{
    if a.len() >= 2 {
        let ha = a.len() as int / 2;
        let body = mroot(a.subrange(0, ha)) + mroot(a.subrange(ha, a.len() as int));
        assert(seq![NODE_TAG] + mroot(a.subrange(0, ha)) + mroot(a.subrange(ha, a.len() as int)) =~= seq![NODE_TAG] + body);
        if b.len() == 0 {
            lemma_empty_root_tag(NODE_TAG, body);
        } else {
            assert(is_leaf_hash(b[0]));
            lemma_leaf_not_tagged(b[0], NODE_TAG, body);
        }
    } else {
        assert(is_leaf_hash(a[0]));
        lemma_leaf_not_tagged(a[0], EMPTY_TAG, Seq::<u8>::empty());
        assert(seq![EMPTY_TAG] =~= seq![EMPTY_TAG] + Seq::<u8>::empty());
    }
}

/// Two runs of leaves with the same root are the same run.
proof fn lemma_mroot_injective(a: Seq<Seq<u8>>, b: Seq<Seq<u8>>)
    requires
        hash_injective(),
        hash_len(),
        leafy(a),
        leafy(b),
        mroot(a) == mroot(b),
    ensures
        a == b,
    decreases a.len() + b.len(),
{
    if a.len() >= 2 && b.len() >= 2 {
        let ha = a.len() as int / 2;
        let (la, ra) = (a.subrange(0, ha), a.subrange(ha, a.len() as int));
        lemma_leafy_halves(a, ha);
        let hb = b.len() as int / 2;
        let (lb, rb) = (b.subrange(0, hb), b.subrange(hb, b.len() as int));
        lemma_leafy_halves(b, hb);
        lemma_mroot_len(la);
        lemma_mroot_len(lb);
        lemma_split(NODE_TAG, mroot(la), mroot(ra), mroot(lb), mroot(rb));
        lemma_mroot_injective(la, lb);
        lemma_mroot_injective(ra, rb);
        assert(a =~= la + ra);
        assert(b =~= lb + rb);
    } else if a.len() == b.len() {
        if a.len() == 1 {
            assert(a =~= b);
        } else {
            assert(a =~= b);
        }
    } else if a.len() > b.len() {
        lemma_root_shapes(a, b);
    } else {
        lemma_root_shapes(b, a);
    }
}

proof fn lemma_climb_len(acc: Seq<u8>, path: Seq<PathStep>)
    requires
        hash_len(),
        acc.len() == 32,
    ensures
        climb(acc, path).len() == 32,
    decreases path.len(),
{
    if path.len() > 0 {
        lemma_climb_len(acc, path.drop_last());
    }
}

/// A leaf hash from which some path climbs to the root of `ls` is one of the leaves.
proof fn lemma_climb_finds_leaf(acc: Seq<u8>, path: Seq<PathStep>, ls: Seq<Seq<u8>>)
    requires
        hash_injective(),
        hash_len(),
        leafy(ls),
        is_leaf_hash(acc),
        climb(acc, path) == mroot(ls),
    ensures
        exists|i: int| 0 <= i < ls.len() && ls[i] == acc,
    decreases path.len(),
{
    let x = choose|x: Seq<u8>| acc == sha256_of(seq![LEAF_TAG] + x);
    assert(acc.len() == 32);
    if path.len() == 0 {
        if ls.len() == 0 {
            lemma_empty_root_tag(LEAF_TAG, x);
        } else if ls.len() == 1 {
            assert(ls[0] == acc);
        } else {
            let h = ls.len() as int / 2;
            lemma_leaf_not_tagged(acc, NODE_TAG, mroot(ls.subrange(0, h)) + mroot(ls.subrange(h, ls.len() as int)));
            assert(seq![NODE_TAG] + mroot(ls.subrange(0, h)) + mroot(ls.subrange(h, ls.len() as int))
                =~= seq![NODE_TAG] + (mroot(ls.subrange(0, h)) + mroot(ls.subrange(h, ls.len() as int))));
        }
    } else {
        let p = path.drop_last();
        let st = path.last();
        let y = climb(acc, p);
        lemma_climb_len(acc, p);
        let body = if st.1 { st.0 + y } else { y + st.0 };
        assert(climb(acc, path) == sha256_of(seq![NODE_TAG] + body)) by {
            if st.1 {
                assert(seq![NODE_TAG] + st.0 + y =~= seq![NODE_TAG] + body);
            } else {
                assert(seq![NODE_TAG] + y + st.0 =~= seq![NODE_TAG] + body);
            }
        };
        if ls.len() == 0 {
            lemma_empty_root_tag(NODE_TAG, body);
        } else if ls.len() == 1 {
            assert(is_leaf_hash(ls[0]));
            lemma_leaf_not_tagged(ls[0], NODE_TAG, body);
        } else {
            let h = ls.len() as int / 2;
            let (l, r) = (ls.subrange(0, h), ls.subrange(h, ls.len() as int));
            lemma_leafy_halves(ls, h);
            lemma_mroot_len(l);
            lemma_mroot_len(r);
            assert(seq![NODE_TAG] + body == seq![NODE_TAG] + mroot(l) + mroot(r));
            if st.1 {
                assert((seq![NODE_TAG] + body).len() == (seq![NODE_TAG] + mroot(l) + mroot(r)).len());
                assert(seq![NODE_TAG] + st.0 + y == seq![NODE_TAG] + mroot(l) + mroot(r));
                lemma_split(NODE_TAG, st.0, y, mroot(l), mroot(r));
                lemma_climb_finds_leaf(acc, p, r);
                let j = choose|j: int| 0 <= j < r.len() && r[j] == acc;
                assert(ls[j + h] == acc);
            } else {
                assert(seq![NODE_TAG] + y + st.0 == seq![NODE_TAG] + mroot(l) + mroot(r));
                lemma_split(NODE_TAG, y, st.0, mroot(l), mroot(r));
                lemma_climb_finds_leaf(acc, p, l);
                let j = choose|j: int| 0 <= j < l.len() && l[j] == acc;
                assert(ls[j] == acc);
            }
        }
    }
}

proof fn lemma_leaves_leafy(s: Seq<SigRecord>)
    ensures
        leafy(leaves_of(s)),
{
    assert forall|i: int| 0 <= i < s.len() implies is_leaf_hash(#[trigger] leaves_of(s)[i]) by {
        let x = sha256_of(s[i].0) + sha256_of(s[i].1);
        assert(seq![LEAF_TAG] + sha256_of(s[i].0) + sha256_of(s[i].1) =~= seq![LEAF_TAG] + x);
    };
}

proof fn lemma_digest_leaves_leafy(s: Seq<SigRecord>)
    ensures
        leafy(digest_leaves(s)),
{
    assert forall|i: int| 0 <= i < s.len() implies is_leaf_hash(#[trigger] digest_leaves(s)[i]) by {
        let x = sha256_of(s[i].0) + s[i].1;
        assert(seq![LEAF_TAG] + sha256_of(s[i].0) + s[i].1 =~= seq![LEAF_TAG] + x);
    };
}

/// A membership proof that verifies against the commitment of `s` shows an entry of `s`:
/// with SHA-256 free of collisions, no proof can be made for a pair the map does not hold.
pub proof fn lemma_membership_sound(w: Witness, key: Seq<u8>, value: Seq<u8>, s: Seq<SigRecord>)
    requires
        hash_injective(),
        hash_len(),
        proves_member(w, key, value, commit(s)),
    ensures
        exists|i: int| 0 <= i < s.len() && s[i].0 == key && s[i].1 == value,
{
    if let Witness::Member { value: v, path } = w {
        let acc = leaf_of(key, value);
        assert(is_leaf_hash(acc)) by {
            assert(seq![LEAF_TAG] + sha256_of(key) + sha256_of(value) =~= seq![LEAF_TAG] + (sha256_of(key) + sha256_of(value)));
        };
        lemma_leaves_leafy(s);
        lemma_climb_finds_leaf(acc, path_view(path@), leaves_of(s));
        let i = choose|i: int| 0 <= i < leaves_of(s).len() && leaves_of(s)[i] == acc;
        assert(seq![LEAF_TAG] + sha256_of(s[i].0) + sha256_of(s[i].1) == seq![LEAF_TAG] + sha256_of(key) + sha256_of(value));
        lemma_split(LEAF_TAG, sha256_of(s[i].0), sha256_of(s[i].1), sha256_of(key), sha256_of(value));
    }
}

/// An absence proof that verifies against the commitment of `s` shows that `s` does not
/// hold `key`: with SHA-256 free of collisions, no such proof exists for a key it holds.
pub proof fn lemma_absence_sound(w: Witness, key: Seq<u8>, s: Seq<SigRecord>)
    requires
        hash_injective(),
        hash_len(),
        proves_absent(w, key, commit(s)),
    ensures
        !has_key(s, key),
{
    if let Witness::Absent { seeds, value_digests } = w {
        let recs = absent_records(seeds@, value_digests@);
        lemma_leaves_leafy(s);
        lemma_digest_leaves_leafy(recs);
        lemma_mroot_injective(digest_leaves(recs), leaves_of(s));
        if has_key(s, key) {
            let i = choose|i: int| 0 <= i < s.len() && #[trigger] s[i].0 == key;
            assert(digest_leaves(recs)[i] == leaves_of(s)[i]);
            assert(seq![LEAF_TAG] + sha256_of(recs[i].0) + recs[i].1 == seq![LEAF_TAG] + sha256_of(key) + sha256_of(s[i].1));
            lemma_split(LEAF_TAG, sha256_of(recs[i].0), recs[i].1, sha256_of(key), sha256_of(s[i].1));
            assert(recs[i].0 == key);
        }
    }
}

} // verus!
