//! An ordered map from 64-bit keys to values: a trie that reads each key as
//! sixteen 4-bit nibbles, most significant first, with sixteen child slots per node.
use vstd::prelude::*;
use vstd::arithmetic::div_mod::{
    lemma_fundamental_div_mod, lemma_fundamental_div_mod_converse, lemma_mod_pos_bound,
};

verus! {

/// Child slots per node.
pub const CHARSET_SIZE: usize = 16;

/// Levels below the root: one per nibble of a key.
pub const KEY_NIBBLES: u64 = 16;

pub open spec fn pow16(h: nat) -> nat
    decreases h,
{
    if h == 0 {
        1
    } else {
        16 * pow16((h - 1) as nat)
    }
}

pub proof fn lemma_pow16_pos(h: nat)
    ensures
        pow16(h) > 0,
    decreases h,
{
    if h > 0 {
        lemma_pow16_pos((h - 1) as nat);
    }
}

pub proof fn lemma_pow16_top()
    ensures
        pow16(16) == 0x1_0000_0000_0000_0000,
        pow16(15) == 0x1000_0000_0000_0000,
{
    reveal_with_fuel(pow16, 17);
}

pub proof fn lemma_pow16_mono(a: nat, b: nat)
    requires
        a <= b,
    ensures
        pow16(a) <= pow16(b),
    decreases b,
{
    if a < b {
        lemma_pow16_mono(a, (b - 1) as nat);
        lemma_pow16_pos((b - 1) as nat);
    }
}

/// A key below `16 * p` splits into a child index and a key below `p`.
proof fn lemma_split(x: int, p: int)
    requires
        p > 0,
        0 <= x < 16 * p,
    ensures
        0 <= x / p < 16,
        0 <= x % p < p,
        x == (x / p) * p + x % p,
{
    lemma_fundamental_div_mod(x, p);
    lemma_mod_pos_bound(x, p);
    assert((x / p) * p == p * (x / p)) by (nonlinear_arith);
    assert(0 <= x / p < 16) by (nonlinear_arith)
        requires
            x == p * (x / p) + (x % p),
            0 <= x % p < p,
            0 <= x < 16 * p,
            p > 0,
    ;
}

/// One node of the trie. A node at height `h` holds the keys below `16^h`:
/// at height 0 its value, above that its children, one per leading nibble.
pub struct TrieNode<T> {
    pub children: Vec<Option<Box<TrieNode<T>>>>,
    pub value: Option<T>,
}

impl<T> TrieNode<T> {
    /// Every node below has its sixteen slots.
    pub open spec fn wf(self, h: nat) -> bool
        decreases h,
    {
        &&& self.children@.len() == CHARSET_SIZE
        &&& h > 0 ==> forall|c: int|
            0 <= c < 16 ==> (#[trigger] self.children@[c] matches Some(b) ==> b.wf((h - 1) as nat))
    }

    /// The value stored under key `r` in this node at height `h`.
    pub open spec fn get_at(self, h: nat, r: nat) -> Option<T>
        decreases h,
    {
        if h == 0 {
            self.value
        } else {
            let p = pow16((h - 1) as nat);
            let c = r / p;
            if c < self.children@.len() {
                match self.children@[c as int] {
                    Some(b) => b.get_at((h - 1) as nat, r % p),
                    None => None,
                }
            } else {
                None
            }
        }
    }

    pub fn new() -> (r: Self)
        ensures
            forall|h: nat| #[trigger] r.wf(h),
            forall|h: nat, k: nat| #[trigger] r.get_at(h, k) is None,
            r.children@.len() == CHARSET_SIZE,
    {
        let r = TrieNode {
            children: vec![
                None, None, None, None, None, None, None, None,
                None, None, None, None, None, None, None, None,
            ],
            value: None,
        };
        assert forall|h: nat| #[trigger] r.wf(h) by {
            assert(forall|c: int| 0 <= c < 16 ==> r.children@[c] is None);
        }
        assert forall|h: nat, k: nat| #[trigger] r.get_at(h, k) is None by {
            if h > 0 {
                let p = pow16((h - 1) as nat);
                lemma_pow16_pos((h - 1) as nat);
                if k / p < 16 {
                    assert(r.children@[(k / p) as int] is None);
                }
            }
        }
        r
    }
}

/// The child slot, and the key within the child, that a key of a node at height `h` goes to.
proof fn lemma_child_key<T>(node: TrieNode<T>, h: nat, c: int, x: int)
    requires
        h > 0,
        node.children@.len() == CHARSET_SIZE,
        0 <= c < 16,
        c * pow16((h - 1) as nat) <= x < (c + 1) * pow16((h - 1) as nat),
    ensures
        node.get_at(h, x as nat) == match node.children@[c] {
            Some(b) => b.get_at((h - 1) as nat, (x - c * pow16((h - 1) as nat)) as nat),
            None => None,
        },
{
    let p = pow16((h - 1) as nat) as int;
    lemma_pow16_pos((h - 1) as nat);
    assert((c + 1) * p == c * p + p) by (nonlinear_arith);
    lemma_fundamental_div_mod_converse(x, p, c, x - c * p);
}

/// Stores `value` under key `r` of a node at height `h`; `p` is the span of one child.
fn insert_at<T>(node: TrieNode<T>, h: u64, r: u64, p: u64, value: T) -> (res: TrieNode<T>)
    requires
        node.wf(h as nat),
        h <= KEY_NIBBLES,
        r < pow16(h as nat),
        h > 0 ==> p == pow16((h - 1) as nat),
    ensures
        res.wf(h as nat),
        forall|k: nat|
            k < pow16(h as nat) ==> #[trigger] res.get_at(h as nat, k) == if k == r {
                Some(value)
            } else {
                node.get_at(h as nat, k)
            },
    decreases h,
{
    let mut node = node;
    if h == 0 {
        node.value = Some(value);
        node
    } else {
        let ghost old_node = node;
        proof {
            lemma_pow16_pos((h - 1) as nat);
            lemma_split(r as int, p as int);
            if h > 1 {
                lemma_pow16_pos((h - 2) as nat);
                assert(p / 16 == pow16((h - 2) as nat));
            }
        }
        let c = (r / p) as usize;
        let rs = r % p;
        let slot = node.children.remove(c);
        let child = match slot {
            Some(b) => *b,
            None => TrieNode::new(),
        };
        let ghost old_child = child;
        let new_child = insert_at(child, h - 1, rs, p / 16, value);
        node.children.insert(c, Some(Box::new(new_child)));
        assert(node.children@ =~= old_node.children@.update(c as int, Some(Box::new(new_child))));
        assert forall|k: nat| k < pow16(h as nat) implies #[trigger] node.get_at(h as nat, k) == if k
            == r {
            Some(value)
        } else {
            old_node.get_at(h as nat, k)
        } by {
            lemma_split(k as int, p as int);
            lemma_split(r as int, p as int);
            let kc = k / (p as nat);
            let kr = k % (p as nat);
            assert(node.get_at(h as nat, k) == match node.children@[kc as int] {
                Some(b) => b.get_at((h - 1) as nat, kr),
                None => None,
            });
            assert(old_node.get_at(h as nat, k) == match old_node.children@[kc as int] {
                Some(b) => b.get_at((h - 1) as nat, kr),
                None => None,
            });
            if kc == c {
                assert(k == r <==> kr == rs);
                assert(old_child.get_at((h - 1) as nat, kr) == old_node.get_at(h as nat, k));
            } else {
                assert(k != r);
            }
        }
        node
    }
}

/// The value under key `r` of a node at height `h`.
fn get_in<'a, T>(node: &'a TrieNode<T>, h: u64, r: u64, p: u64) -> (res: Option<&'a T>)
    requires
        node.wf(h as nat),
        h <= KEY_NIBBLES,
        r < pow16(h as nat),
        h > 0 ==> p == pow16((h - 1) as nat),
    ensures
        match res {
            Some(v) => node.get_at(h as nat, r as nat) == Some(*v),
            None => node.get_at(h as nat, r as nat) is None,
        },
    decreases h,
{
    if h == 0 {
        match &node.value {
            Some(v) => Some(v),
            None => None,
        }
    } else {
        proof {
            lemma_pow16_pos((h - 1) as nat);
            lemma_split(r as int, p as int);
            if h > 1 {
                lemma_pow16_pos((h - 2) as nat);
                assert(p / 16 == pow16((h - 2) as nat));
            }
        }
        let c = (r / p) as usize;
        match &node.children[c] {
            Some(b) => get_in(b, h - 1, r % p, p / 16),
            None => None,
        }
    }
}

/// Removes the value under key `r` of a node at height `h`, and returns it.
fn take_at<T>(node: TrieNode<T>, h: u64, r: u64, p: u64) -> (res: (TrieNode<T>, Option<T>))
    requires
        node.wf(h as nat),
        h <= KEY_NIBBLES,
        r < pow16(h as nat),
        h > 0 ==> p == pow16((h - 1) as nat),
    ensures
        res.0.wf(h as nat),
        res.1 == node.get_at(h as nat, r as nat),
        forall|k: nat|
            k < pow16(h as nat) ==> #[trigger] res.0.get_at(h as nat, k) == if k == r {
                None
            } else {
                node.get_at(h as nat, k)
            },
    decreases h,
{
    let mut node = node;
    if h == 0 {
        let v = node.value;
        node.value = None;
        (node, v)
    } else {
        let ghost old_node = node;
        proof {
            lemma_pow16_pos((h - 1) as nat);
            lemma_split(r as int, p as int);
            if h > 1 {
                lemma_pow16_pos((h - 2) as nat);
                assert(p / 16 == pow16((h - 2) as nat));
            }
        }
        let c = (r / p) as usize;
        let rs = r % p;
        let slot = node.children.remove(c);
        match slot {
            None => {
                node.children.insert(c, None);
                assert(node.children@ =~= old_node.children@);
                assert forall|k: nat| k < pow16(h as nat) implies #[trigger] node.get_at(h as nat, k)
                    == if k == r {
                    None
                } else {
                    old_node.get_at(h as nat, k)
                } by {
                    lemma_split(k as int, p as int);
                }
                (node, None)
            },
            Some(b) => {
                let child = *b;
                let (new_child, v) = take_at(child, h - 1, rs, p / 16);
                node.children.insert(c, Some(Box::new(new_child)));
                assert(node.children@ =~= old_node.children@.update(c as int, Some(Box::new(new_child))));
                assert forall|k: nat| k < pow16(h as nat) implies #[trigger] node.get_at(h as nat, k)
                    == if k == r {
                    None
                } else {
                    old_node.get_at(h as nat, k)
                } by {
                    lemma_split(k as int, p as int);
                    lemma_split(r as int, p as int);
                    let kc = k / (p as nat);
                    let kr = k % (p as nat);
                    assert(node.get_at(h as nat, k) == match node.children@[kc as int] {
                        Some(b) => b.get_at((h - 1) as nat, kr),
                        None => None,
                    });
                    assert(old_node.get_at(h as nat, k) == match old_node.children@[kc as int] {
                        Some(b) => b.get_at((h - 1) as nat, kr),
                        None => None,
                    });
                    if kc == c {
                        assert(k == r <==> kr == rs);
                    } else {
                        assert(k != r);
                    }
                }
                (node, v)
            },
        }
    }
}

/// `s` lists, in strictly ascending key order, exactly the entries of `node`
/// (at height `h`, holding keys from `base` on) whose keys lie in `[a, b]`.
pub open spec fn lists<T>(s: Seq<(u64, &T)>, node: TrieNode<T>, h: nat, base: int, a: int, b: int) -> bool {
    &&& forall|i: int, j: int| 0 <= i < j < s.len() ==> s[i].0 < s[j].0
    &&& forall|i: int|
        0 <= i < s.len() ==> {
            let k = (#[trigger] s[i]).0;
            &&& a <= k <= b
            &&& base <= k < base + pow16(h)
            &&& node.get_at(h, (k - base) as nat) == Some(*s[i].1)
        }
    &&& forall|k: int|
        a <= k <= b && base <= k < base + pow16(h) && (#[trigger] node.get_at(h, (k - base) as nat)) is Some
            ==> exists|i: int| 0 <= i < s.len() && s[i].0 == k
}

/// Appends to `out`, in key order, the entries of `node` whose keys lie in
/// `[lo, hi]`; subtrees that hold no such key are not entered.
fn collect_in<'a, T>(
    node: &'a TrieNode<T>,
    h: u64,
    base: u64,
    p: u64,
    lo: u64,
    hi: u64,
    out: &mut Vec<(u64, &'a T)>,
)
    requires
        node.wf(h as nat),
        h <= KEY_NIBBLES,
        base + pow16(h as nat) <= pow16(16),
        h > 0 ==> p == pow16((h - 1) as nat),
    ensures
        final(out)@.len() >= old(out)@.len(),
        final(out)@.subrange(0, old(out)@.len() as int) == old(out)@,
        lists(
            final(out)@.subrange(old(out)@.len() as int, final(out)@.len() as int),
            *node,
            h as nat,
            base as int,
            lo as int,
            hi as int,
        ),
    decreases h,
{
    let ghost start = out@.len();
    if h == 0 {
        if lo <= base && base <= hi {
            match &node.value {
                Some(v) => {
                    out.push((base, v));
                },
                None => {},
            }
        }
        proof {
            let seg = out@.subrange(start as int, out@.len() as int);
            assert(out@.subrange(0, start as int) =~= old(out)@);
            assert forall|k: int|
                lo <= k <= hi && base <= k < base + pow16(0) && (#[trigger] node.get_at(0, (k - base) as nat)) is Some
                implies exists|i: int| 0 <= i < seg.len() && seg[i].0 == k by {
                assert(seg[0].0 == k);
            }
        }
        return;
    }
    proof {
        lemma_pow16_pos((h - 1) as nat);
        if h > 1 {
            lemma_pow16_pos((h - 2) as nat);
            assert(p / 16 == pow16((h - 2) as nat));
        }
        lemma_pow16_mono(h as nat, 16);
        lemma_pow16_top();
    }
    let mut c: usize = 0;
    while c < CHARSET_SIZE
        invariant
            node.wf(h as nat),
            0 < h <= KEY_NIBBLES,
            p == pow16((h - 1) as nat),
            p > 0,
            base + 16 * p <= pow16(16),
            pow16(16) == 0x1_0000_0000_0000_0000,
            0 <= c <= 16,
            start == old(out)@.len(),
            out@.len() >= start,
            out@.subrange(0, start as int) == old(out)@,
            lists(
                out@.subrange(start as int, out@.len() as int),
                *node,
                h as nat,
                base as int,
                lo as int,
                if hi as int <= base + c * p - 1 { hi as int } else { base + c * p - 1 },
            ),
        decreases 16 - c,
    {
        let ghost before = out@;
        let ghost seg0 = out@.subrange(start as int, out@.len() as int);
        proof {
            assert(c * p <= 15 * p) by (nonlinear_arith)
                requires
                    c < 16,
                    p > 0,
            ;
            assert((c + 1) * p == c * p + p) by (nonlinear_arith);
        }
        let cb: u64 = base + (c as u64) * p;
        let ce: u64 = cb + (p - 1);
        let ghost b_old: int = if hi as int <= base + c * p - 1 { hi as int } else { base + c * p - 1 };
        let ghost b_new: int = if hi as int <= base + (c + 1) * p - 1 { hi as int } else { base + (c + 1) * p - 1 };
        if cb <= hi && lo <= ce {
            match &node.children[c] {
                Some(b) => {
                    collect_in(b, h - 1, cb, p / 16, lo, hi, out);
                },
                None => {},
            }
        }
        proof {
            let seg1 = out@.subrange(start as int, out@.len() as int);
            let added = out@.subrange(before.len() as int, out@.len() as int);
            assert(out@.subrange(0, before.len() as int) == before);
            assert(out@.subrange(0, start as int) =~= before.subrange(0, start as int));
            assert(seg1 =~= seg0 + added);
            // entries taken from the child lie in its span, and the parent holds them there
            assert forall|i: int| 0 <= i < added.len() implies {
                let k = (#[trigger] added[i]).0;
                &&& lo <= k <= hi
                &&& cb <= k <= ce
                &&& node.get_at(h as nat, (k - base) as nat) == Some(*added[i].1)
            } by {
                let k = added[i].0;
                lemma_child_key(*node, h as nat, c as int, k - base);
            }
            assert forall|i: int, j: int| 0 <= i < j < seg1.len() implies seg1[i].0 < seg1[j].0 by {
                if j >= seg0.len() && i < seg0.len() {
                    assert(seg1[i] == seg0[i]);
                    assert(seg1[j] == added[j - seg0.len()]);
                } else if i >= seg0.len() {
                    assert(seg1[i] == added[i - seg0.len()]);
                    assert(seg1[j] == added[j - seg0.len()]);
                } else {
                    assert(seg1[i] == seg0[i]);
                    assert(seg1[j] == seg0[j]);
                }
            }
            assert forall|i: int| 0 <= i < seg1.len() implies {
                let k = (#[trigger] seg1[i]).0;
                &&& lo <= k <= b_new
                &&& base <= k < base + pow16(h as nat)
                &&& node.get_at(h as nat, (k - base) as nat) == Some(*seg1[i].1)
            } by {
                if i < seg0.len() {
                    assert(seg1[i] == seg0[i]);
                } else {
                    assert(seg1[i] == added[i - seg0.len()]);
                }
            }
            assert forall|k: int|
                lo <= k <= b_new && base <= k < base + pow16(h as nat)
                    && (#[trigger] node.get_at(h as nat, (k - base) as nat)) is Some
                implies exists|i: int| 0 <= i < seg1.len() && seg1[i].0 == k by {
                if k <= b_old {
                    let i = choose|i: int| 0 <= i < seg0.len() && seg0[i].0 == k;
                    assert(seg1[i] == seg0[i]);
                } else {
                    lemma_child_key(*node, h as nat, c as int, k - base);
                    assert(node.children@[c as int] is Some);
                    let b = node.children@[c as int]->0;
                    assert(k - base - c * p == k - cb);
                    assert(b.get_at((h - 1) as nat, (k - cb) as nat) is Some);
                    assert(cb <= hi && lo <= ce);
                    assert(exists|i: int| 0 <= i < added.len() && added[i].0 == k);
                    let i = choose|i: int| 0 <= i < added.len() && added[i].0 == k;
                    assert(seg1[seg0.len() + i] == added[i]);
                }
            }
        }
        c = c + 1;
    }
    proof {
        let seg = out@.subrange(start as int, out@.len() as int);
        assert(16 * p == pow16(h as nat));
    }
}

/// The sixteen nibbles of a key, most significant first.
pub open spec fn nibbles(k: u64) -> Seq<u8> {
    Seq::new(16, |i: int| ((k as nat / pow16((15 - i) as nat)) % 16) as u8)
}

/// The nibbles of `val`, most significant first.
pub fn u64_to_chars(val: u64) -> (r: Vec<u8>)
    ensures
        r@ == nibbles(val),
{
    let mut r: Vec<u8> = Vec::new();
    let mut p: u64 = 0x1000_0000_0000_0000;
    let mut i: usize = 0;
    proof {
        lemma_pow16_top();
    }
    while i < 16
        invariant
            0 <= i <= 16,
            r@.len() == i,
            i < 16 ==> p == pow16((15 - i) as nat),
            forall|j: int| 0 <= j < i ==> r@[j] == #[trigger] nibbles(val)[j],
        decreases 16 - i,
    {
        proof {
            lemma_pow16_pos((15 - i) as nat);
            if i < 15 {
                lemma_pow16_pos((14 - i) as nat);
                assert(pow16((15 - i) as nat) == 16 * pow16((14 - i) as nat));
            }
        }
        r.push(((val / p) % 16) as u8);
        p = p / 16;
        i = i + 1;
    }
    assert(r@ =~= nibbles(val));
    r
}

impl<T> TrieNode<T> {
    /// Every entry below this root node, in key order, each with the nibbles of its key.
    pub fn get_all(&self) -> (r: Vec<(Vec<u8>, &T)>)
        requires
            self.wf(16),
        ensures
            exists|s: Seq<(u64, &T)>|
                {
                    &&& lists(s, *self, 16, 0, 0, u64::MAX as int)
                    &&& r@.len() == s.len()
                    &&& forall|i: int|
                        0 <= i < s.len() ==> (#[trigger] r@[i]).0@ == nibbles(s[i].0) && r@[i].1
                            == s[i].1
                },
    {
        let mut entries: Vec<(u64, &T)> = Vec::new();
        proof {
            lemma_pow16_top();
        }
        collect_in(self, 16, 0, 0x1000_0000_0000_0000, 0, u64::MAX, &mut entries);
        assert(entries@.subrange(0, entries@.len() as int) =~= entries@);
        let mut r: Vec<(Vec<u8>, &T)> = Vec::new();
        let mut i: usize = 0;
        while i < entries.len()
            invariant
                0 <= i <= entries@.len(),
                r@.len() == i,
                forall|j: int|
                    0 <= j < i ==> (#[trigger] r@[j]).0@ == nibbles(entries@[j].0) && r@[j].1
                        == entries@[j].1,
            decreases entries@.len() - i,
        {
            let (k, v) = entries[i];
            r.push((u64_to_chars(k), v));
            i = i + 1;
        }
        r
    }
}

/// An ordered map from `u64` keys to values.
pub struct Trie<T> {
    pub root: TrieNode<T>,
}

impl<T> View for Trie<T> {
    type V = Map<u64, T>;

    open spec fn view(&self) -> Map<u64, T> {
        Map::new(
            |k: u64| self.root.get_at(16, k as nat) is Some,
            |k: u64| self.root.get_at(16, k as nat)->0,
        )
    }
}

impl<T> Trie<T> {
    pub open spec fn wf(&self) -> bool {
        self.root.wf(16)
    }

    pub fn new() -> (r: Self)
        ensures
            r.wf(),
            r@ == Map::<u64, T>::empty(),
    {
        let r = Trie { root: TrieNode::new() };
        assert(r@ =~= Map::<u64, T>::empty());
        r
    }

    /// Stores `value` under `key`, replacing what was there.
    pub fn insert(&mut self, key: u64, value: T)
        requires
            old(self).wf(),
        ensures
            final(self).wf(),
            final(self)@ == old(self)@.insert(key, value),
    {
        let mut root = TrieNode::new();
        std::mem::swap(&mut root, &mut self.root);
        proof {
            lemma_pow16_top();
        }
        let ghost old_root = root;
        self.root = insert_at(root, 16, key, 0x1000_0000_0000_0000, value);
        assert(self@ =~= old(self)@.insert(key, value)) by {
            assert forall|k: u64| #[trigger] self.root.get_at(16, k as nat) == if k == key {
                Some(value)
            } else {
                old_root.get_at(16, k as nat)
            } by {}
        }
    }

    /// The value under `key`.
    pub fn get(&self, key: u64) -> (r: Option<&T>)
        requires
            self.wf(),
        ensures
            match r {
                Some(v) => self@.contains_key(key) && self@[key] == *v,
                None => !self@.contains_key(key),
            },
    {
        proof {
            lemma_pow16_top();
        }
        get_in(&self.root, 16, key, 0x1000_0000_0000_0000)
    }

    pub fn contains_key(&self, key: u64) -> (r: bool)
        requires
            self.wf(),
        ensures
            r == self@.contains_key(key),
    {
        self.get(key).is_some()
    }

    /// Removes the value under `key` and hands it back.
    pub fn take(&mut self, key: u64) -> (r: Option<T>)
        requires
            old(self).wf(),
        ensures
            final(self).wf(),
            final(self)@ == old(self)@.remove(key),
            match r {
                Some(v) => old(self)@.contains_key(key) && old(self)@[key] == v,
                None => !old(self)@.contains_key(key),
            },
    {
        let mut root = TrieNode::new();
        std::mem::swap(&mut root, &mut self.root);
        proof {
            lemma_pow16_top();
        }
        let ghost old_root = root;
        let (new_root, v) = take_at(root, 16, key, 0x1000_0000_0000_0000);
        self.root = new_root;
        assert(self@ =~= old(self)@.remove(key)) by {
            assert forall|k: u64| #[trigger] self.root.get_at(16, k as nat) == if k == key {
                None
            } else {
                old_root.get_at(16, k as nat)
            } by {}
        }
        v
    }

    /// The entries whose keys lie in `[start, end]`, in strictly ascending key order.
    pub fn get_range_incl(&self, start: u64, end: u64) -> (r: Vec<(u64, &T)>)
        requires
            self.wf(),
        ensures
            forall|i: int, j: int| 0 <= i < j < r@.len() ==> r@[i].0 < r@[j].0,
            forall|i: int|
                0 <= i < r@.len() ==> {
                    let k = (#[trigger] r@[i]).0;
                    &&& start <= k <= end
                    &&& self@.contains_key(k)
                    &&& self@[k] == *r@[i].1
                },
            forall|k: u64|
                start <= k <= end && #[trigger] self@.contains_key(k) ==> exists|i: int|
                    0 <= i < r@.len() && r@[i].0 == k,
    {
        let mut out: Vec<(u64, &T)> = Vec::new();
        proof {
            lemma_pow16_top();
        }
        collect_in(&self.root, 16, 0, 0x1000_0000_0000_0000, start, end, &mut out);
        assert(out@.subrange(0, out@.len() as int) =~= out@);
        assert forall|k: u64| start <= k <= end && #[trigger] self@.contains_key(k) implies exists|i: int|
            0 <= i < out@.len() && out@[i].0 == k by {
            assert(self.root.get_at(16, (k - 0) as nat) is Some);
        }
        out
    }
}

} // verus!
