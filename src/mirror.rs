//! Round-robin selection over equivalent mirror URLs.
use vstd::prelude::*;

verus! {

/// The index that the `j`-th call of `next` picks, from cursor `c` over `k` URLs.
pub open spec fn pick(c: nat, k: nat, j: nat) -> nat
    recommends
        k > 0,
{
    (c + j) % (k as int) as nat
}

/// A fixed, non-empty list of URLs and a rotating cursor.
#[derive(Debug, Clone)]
pub struct MirrorPool {
    pub urls: Vec<String>,
    pub cursor: usize,
}

impl MirrorPool {
    pub open spec fn wf(&self) -> bool {
        self.urls@.len() > 0 && self.cursor < self.urls@.len()
    }

    pub fn new(urls: Vec<String>) -> (r: MirrorPool)
        requires
            urls@.len() > 0,
        ensures
            r.wf(),
            r.urls@ == urls@,
            r.cursor == 0,
    {
        MirrorPool { urls, cursor: 0 }
    }

    /// The URL under the cursor; the cursor moves on by one, wrapping around.
    pub fn next(&mut self) -> (r: String)
        requires
            old(self).wf(),
        ensures
            final(self).wf(),
            final(self).urls@ == old(self).urls@,
            r@ == old(self).urls@[old(self).cursor as int]@,
            final(self).cursor == pick(old(self).cursor as nat, old(self).urls@.len(), 1),
    {
        let r = self.urls[self.cursor].clone();
        let n = self.urls.len();
        if self.cursor == n - 1 {
            self.cursor = 0;
        } else {
            self.cursor = self.cursor + 1;
        }
        proof {
            let k = self.urls@.len() as int;
            let c = old(self).cursor as int;
            if c + 1 == k {
                vstd::arithmetic::div_mod::lemma_fundamental_div_mod_converse((c + 1) as int, k, 1, (0) as int);
            } else {
                vstd::arithmetic::div_mod::lemma_fundamental_div_mod_converse((c + 1) as int, k, 0, (c + 1) as int);
            }
        }
        r
    }

    /// The first URL.
    pub fn primary(&self) -> (r: String)
        requires
            self.wf(),
        ensures
            r@ == self.urls@[0]@,
    {
        self.urls[0].clone()
    }

    /// All URLs, in order.
    pub fn all(&self) -> (r: Vec<String>)
        ensures
            r@.len() == self.urls@.len(),
            forall|i: int| 0 <= i < r@.len() ==> #[trigger] r@[i]@ == self.urls@[i]@,
    {
        let mut out: Vec<String> = Vec::new();
        let mut i: usize = 0;
        while i < self.urls.len()
            invariant
                i <= self.urls@.len(),
                out@.len() == i,
                forall|j: int| 0 <= j < i ==> #[trigger] out@[j]@ == self.urls@[j]@,
            decreases self.urls@.len() - i,
        {
            out.push(self.urls[i].clone());
            i = i + 1;
        }
        out
    }
}

/// Rotation is fair: from any cursor `c` over `k` URLs, moving the cursor
/// after the `j`-th call gives the pick of the next call, and `k`
/// consecutive calls pick every index exactly once.
pub proof fn lemma_rotation_fair(k: nat, c: nat)
    requires
        c < k,
    ensures
        forall|j: nat| #[trigger] pick(pick(c, k, j), k, 1) == pick(c, k, j + 1),
        forall|i: nat| i < k ==> #[trigger] pick(c, k, ((i + k - c) % (k as int)) as nat) == i,
        forall|j1: nat, j2: nat|
            j1 < k && j2 < k && #[trigger] pick(c, k, j1) == #[trigger] pick(c, k, j2) ==> j1 == j2,
{
    assert forall|j: nat| #[trigger] pick(pick(c, k, j), k, 1) == pick(c, k, j + 1) by {
        vstd::arithmetic::div_mod::lemma_add_mod_noop((c + j) as int, 1, k as int);
        vstd::arithmetic::div_mod::lemma_mod_pos_bound((c + j) as int, k as int);
        if k == 1 {
            vstd::arithmetic::div_mod::lemma_fundamental_div_mod_converse((1) as int, 1, 1, (0) as int);
        } else {
            vstd::arithmetic::div_mod::lemma_fundamental_div_mod_converse((1) as int, k as int, 0, (1) as int);
        }
    }
    assert forall|i: nat| i < k implies #[trigger] pick(c, k, ((i + k - c) % (k as int)) as nat) == i by {
        let d = i + k - c;
        if d < k {
            vstd::arithmetic::div_mod::lemma_fundamental_div_mod_converse((d) as int, k as int, 0, (d) as int);
            if c + d < k {
                vstd::arithmetic::div_mod::lemma_fundamental_div_mod_converse((c + d) as int, k as int, 0, (c + d) as int);
            } else {
                vstd::arithmetic::div_mod::lemma_fundamental_div_mod_converse((c + d) as int, k as int, 1, (c + d - k) as int);
            }
        } else {
            vstd::arithmetic::div_mod::lemma_fundamental_div_mod_converse((d) as int, k as int, 1, (d - k) as int);
            vstd::arithmetic::div_mod::lemma_fundamental_div_mod_converse((c + d - k) as int, k as int, 0, (c + d - k) as int);
        }
    }
    assert forall|j1: nat, j2: nat|
        j1 < k && j2 < k && #[trigger] pick(c, k, j1) == #[trigger] pick(c, k, j2) implies j1 == j2 by {
        if c + j1 < k {
            vstd::arithmetic::div_mod::lemma_fundamental_div_mod_converse((c + j1) as int, k as int, 0, (c + j1) as int);
        } else {
            vstd::arithmetic::div_mod::lemma_fundamental_div_mod_converse((c + j1) as int, k as int, 1, (c + j1 - k) as int);
        }
        if c + j2 < k {
            vstd::arithmetic::div_mod::lemma_fundamental_div_mod_converse((c + j2) as int, k as int, 0, (c + j2) as int);
        } else {
            vstd::arithmetic::div_mod::lemma_fundamental_div_mod_converse((c + j2) as int, k as int, 1, (c + j2 - k) as int);
        }
    }
}

} // verus!
