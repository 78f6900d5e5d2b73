//! An interned-string pool. Interning the same text twice yields the same
//! index, and an index resolves to its text for the pool's whole lifetime.
//!
//! The pool grows in segments: when one fills up, a fresh segment of twice
//! the capacity is chained in front of it, and the full segments behind it
//! are never touched again, so indices stay stable. The view flattens the
//! chain, oldest string first.

use vstd::prelude::*;

verus! {

/// A stable handle for an interned string: its position in the pool, in
/// interning order.
#[derive(Debug, Clone, Copy, PartialEq, Eq, Structural)]
pub struct QstrIndex(pub usize);

/// The capacity of a fresh pool's first segment.
pub const POOLSIZE_MIN: usize = 1;

/// The interned-string pool: the newest segment, with the filled older
/// segments chained behind it.
#[derive(Debug)]
pub struct QstrPool {
    parent: Option<Box<QstrPool>>,
    qstrs: Vec<String>,
    total_prev_len: usize,
    cap: usize,
}

/// The strings of one segment, in interning order.
spec fn strs_view(s: Seq<String>) -> Seq<Seq<char>> {
    Seq::new(s.len(), |i: int| s[i]@)
}

/// The whole pool's strings, oldest first.
spec fn pool_view(p: QstrPool) -> Seq<Seq<char>>
    decreases p,
{
    (match p.parent {
        Option::Some(par) => pool_view(*par),
        Option::None => Seq::empty(),
    }) + strs_view(p.qstrs@)
}

impl View for QstrPool {
    type V = Seq<Seq<char>>;

    closed spec fn view(&self) -> Seq<Seq<char>> {
        pool_view(*self)
    }
}

impl QstrPool {
    /// The segment bookkeeping is consistent: each segment records how many
    /// strings the segments behind it hold, and stays within its capacity.
    #[verifier::type_invariant]
    spec fn wf(self) -> bool
        decreases self,
    {
        &&& (match self.parent {
            Option::Some(par) => par.wf() && self.total_prev_len as nat == pool_view(*par).len(),
            Option::None => self.total_prev_len == 0,
        })
        &&& self.qstrs@.len() <= self.cap
        &&& self.cap >= 1
        &&& self.total_prev_len + self.qstrs@.len() <= usize::MAX
    }

    /// A pool's view holds exactly the strings its segments count.
    proof fn lemma_view_len(&self)
        requires
            self.wf(),
        ensures
            self@.len() == self.total_prev_len + self.qstrs@.len(),
        decreases *self,
    {
        match &self.parent {
            Option::Some(par) => {
                par.lemma_view_len();
            },
            Option::None => {},
        }
    }

    /// The empty pool.
    pub fn empty() -> (r: Self)
        ensures
            r@ == Seq::<Seq<char>>::empty(),
    {
        let r = QstrPool {
            parent: Option::None,
            qstrs: Vec::new(),
            total_prev_len: 0,
            cap: POOLSIZE_MIN,
        };
        proof {
            assert(strs_view(r.qstrs@) =~= Seq::<Seq<char>>::empty());
            assert(r@ =~= Seq::<Seq<char>>::empty());
        }
        r
    }

    /// The string in this segment at segment-local position `n`, if any.
    fn _get(&self, n: usize) -> (r: Option<&str>)
        ensures
            match r {
                Option::Some(s) => n < self.qstrs@.len() && s@ == self.qstrs@[n as int]@,
                Option::None => n >= self.qstrs@.len(),
            },
    {
        if n < self.qstrs.len() {
            Option::Some(self.qstrs[n].as_str())
        } else {
            Option::None
        }
    }

    /// The string an index resolves to: position `ind` in interning order,
    /// or nothing for an index the pool never handed out.
    pub fn get(&self, ind: QstrIndex) -> (r: Option<&str>)
        ensures
            match r {
                Option::Some(s) => ind.0 < self@.len() && s@ == self@[ind.0 as int],
                Option::None => ind.0 >= self@.len(),
            },
    {
        proof {
            use_type_invariant(self);
        }
        let n = ind.0;
        let mut pool: &QstrPool = self;
        while n < pool.total_prev_len
            invariant
                pool.wf(),
                pool@.len() <= self@.len(),
                pool@ == self@.subrange(0, pool@.len() as int),
                n < self@.len() ==> n < pool@.len(),
                n >= self@.len() ==> n >= pool.total_prev_len + pool.qstrs@.len(),
            decreases *pool,
        {
            match &pool.parent {
                Option::Some(par) => {
                    proof {
                        assert(pool_view(**par) =~= pool@.subrange(0, pool_view(**par).len() as int));
                        assert(pool_view(**par) =~= self@.subrange(
                            0,
                            pool_view(**par).len() as int,
                        ));
                    }
                    pool = par;
                },
                Option::None => {
                    proof {
                        assert(false);
                    }
                },
            }
        }
        let r = pool._get(n - pool.total_prev_len);
        proof {
            if n < self@.len() {
                assert(pool@[n as int] == strs_view(pool.qstrs@)[n - pool.total_prev_len]);
                assert(self@[n as int] == pool@[n as int]);
            }
        }
        r
    }

    /// The index of `s`, if the pool has interned it: an index whose text is
    /// `s`, or nothing if no interned string equals `s`.
    pub fn find(&self, s: &str) -> (r: Option<QstrIndex>)
        ensures
            match r {
                Option::Some(ind) => ind.0 < self@.len() && self@[ind.0 as int] == s@,
                Option::None => forall|i: int| 0 <= i < self@.len() ==> self@[i] != s@,
            },
        decreases *self,
    {
        proof {
            use_type_invariant(self);
            self.lemma_view_len();
        }
        let owned: String = s.to_owned();
        let m = self.qstrs.len();
        let mut i: usize = 0;
        while i < m
            invariant
                self.wf(),
                m == self.qstrs@.len(),
                i <= m,
                owned@ == s@,
                forall|j: int| 0 <= j < i ==> #[trigger] strs_view(self.qstrs@)[j] != s@,
            decreases m - i,
        {
            if self.qstrs[i].eq(&owned) {
                proof {
                    assert(self@[self.total_prev_len + i] == strs_view(self.qstrs@)[i as int]);
                }
                return Option::Some(QstrIndex(i + self.total_prev_len));
            }
            proof {
                assert(strs_view(self.qstrs@)[i as int] == self.qstrs@[i as int]@);
            }
            i = i + 1;
        }
        match &self.parent {
            Option::Some(par) => {
                let r = par.find(s);
                proof {
                    match r {
                        Option::Some(ind) => {
                            assert(self@[ind.0 as int] == (**par)@[ind.0 as int]);
                        },
                        Option::None => {
                            assert forall|i2: int| 0 <= i2 < self@.len() implies self@[i2] != s@
                            by {
                                if i2 < (**par)@.len() {
                                    assert(self@[i2] == (**par)@[i2]);
                                    assert((**par)@[i2] != s@);
                                } else {
                                    assert(self@[i2] == strs_view(self.qstrs@)[i2
                                        - self.total_prev_len]);
                                }
                            }
                        },
                    }
                }
                r
            },
            Option::None => {
                proof {
                    assert forall|i2: int| 0 <= i2 < self@.len() implies self@[i2] != s@ by {
                        assert(self@[i2] == strs_view(self.qstrs@)[i2]);
                    }
                }
                Option::None
            },
        }
    }

    /// Interns `s`: yields the pool that holds it and its index. Interning
    /// a string the pool already holds yields an index whose text equals it
    /// and leaves the pool as it was; otherwise the string is appended and
    /// its fresh index handed back. When the newest segment is full, a
    /// segment of twice the capacity is chained in front first.
    pub fn insert(self, s: String) -> (r: (Self, QstrIndex))
        requires
            self@.len() < usize::MAX,
        ensures
            (exists|i: int| 0 <= i < self@.len() && self@[i] == s@) ==> r.0@ == self@ && r.1.0
                < self@.len() && r.0@[r.1.0 as int] == s@,
            !(exists|i: int| 0 <= i < self@.len() && self@[i] == s@) ==> r.0@ == self@.push(s@)
                && r.1.0 == self@.len(),
    {
        proof {
            use_type_invariant(&self);
            self.lemma_view_len();
        }
        match self.find(s.as_str()) {
            Option::Some(ind) => (self, ind),
            Option::None => {
                let QstrPool { parent, mut qstrs, total_prev_len, cap } = self;
                if qstrs.len() == cap {
                    let total2 = cap + total_prev_len;
                    let newcap = if cap <= usize::MAX / 2 {
                        cap * 2
                    } else {
                        cap
                    };
                    let old_pool = QstrPool { parent, qstrs, total_prev_len, cap };
                    proof {
                        assert(pool_view(old_pool) == self@);
                        assert(pool_view(old_pool).len() == total2);
                    }
                    let mut qstrs2: Vec<String> = Vec::new();
                    qstrs2.push(s);
                    let new_pool = QstrPool {
                        parent: Option::Some(Box::new(old_pool)),
                        qstrs: qstrs2,
                        total_prev_len: total2,
                        cap: if newcap >= 1 {
                            newcap
                        } else {
                            1
                        },
                    };
                    proof {
                        assert(new_pool@ =~= self@.push(s@));
                    }
                    (new_pool, QstrIndex(total2))
                } else {
                    let ghost s_v = s@;
                    qstrs.push(s);
                    let n = total_prev_len + qstrs.len() - 1;
                    let new_pool = QstrPool { parent, qstrs, total_prev_len, cap };
                    proof {
                        assert(new_pool@ =~= self@.push(s_v));
                    }
                    (new_pool, QstrIndex(n))
                }
            },
        }
    }
}

} // verus!
