//! A simple unbalanced binary search structure keyed by an integer position.
//!
//! Lookups descend from the root: strictly smaller positions go to the lower
//! child, all others to the higher child. The node where this descent stops
//! (because the next child slot is empty) is the "nearest" node to a queried
//! position, and all operations are specified in terms of that search path.
use vstd::prelude::*;

verus! {

pub struct Node<T> {
    pub position: u64,
    pub value: T,
    pub lower: Option<Box<Node<T>>>,
    pub higher: Option<Box<Node<T>>>,
}

impl<T> Node<T> {
    /// The node where the descent for `position` stops.
    pub open spec fn search(self, position: u64) -> Node<T>
        decreases self,
    {
        if position < self.position {
            match self.lower {
                Some(lower) => lower.search(position),
                None => self,
            }
        } else {
            match self.higher {
                Some(higher) => higher.search(position),
                None => self,
            }
        }
    }

    /// `out` is `self` with a fresh leaf holding `(p, v)` attached at the
    /// empty child slot where the descent for `p` stops.
    pub open spec fn inserted(self, p: u64, v: T, out: Node<T>) -> bool
        decreases self,
    {
        if p < self.position {
            out.position == self.position && out.value == self.value && out.higher
                == self.higher && match self.lower {
                Some(lower) => match out.lower {
                    Some(out_lower) => lower.inserted(p, v, *out_lower),
                    None => false,
                },
                None => match out.lower {
                    Some(out_lower) => out_lower.position == p && out_lower.value == v
                        && out_lower.lower is None && out_lower.higher is None,
                    None => false,
                },
            }
        } else {
            out.position == self.position && out.value == self.value && out.lower == self.lower
                && match self.higher {
                Some(higher) => match out.higher {
                    Some(out_higher) => higher.inserted(p, v, *out_higher),
                    None => false,
                },
                None => match out.higher {
                    Some(out_higher) => out_higher.position == p && out_higher.value == v
                        && out_higher.lower is None && out_higher.higher is None,
                    None => false,
                },
            }
        }
    }

    /// The values on the chain of `higher` children starting at `self`.
    pub open spec fn higher_chain(self) -> Seq<T>
        decreases self,
    {
        match self.higher {
            Some(higher) => seq![self.value] + higher.higher_chain(),
            None => seq![self.value],
        }
    }

    /// The values on the chain of `lower` children starting at `self`.
    pub open spec fn lower_chain(self) -> Seq<T>
        decreases self,
    {
        match self.lower {
            Some(lower) => seq![self.value] + lower.lower_chain(),
            None => seq![self.value],
        }
    }

    /// `out` is `self` with the node where the descent for `position`
    /// stops replaced by `m`.
    pub open spec fn replaced(self, position: u64, m: Node<T>, out: Node<T>) -> bool
        decreases self,
    {
        if position < self.position {
            match self.lower {
                Some(lower) => out.position == self.position && out.value == self.value
                    && out.higher == self.higher && match out.lower {
                    Some(out_lower) => lower.replaced(position, m, *out_lower),
                    None => false,
                },
                None => out == m,
            }
        } else {
            match self.higher {
                Some(higher) => out.position == self.position && out.value == self.value
                    && out.lower == self.lower && match out.higher {
                    Some(out_higher) => higher.replaced(position, m, *out_higher),
                    None => false,
                },
                None => out == m,
            }
        }
    }

    pub fn new(position: u64, value: T) -> (r: Node<T>)
        ensures
            r.position == position,
            r.value == value,
            r.lower is None,
            r.higher is None,
    {
        Node { position, value, lower: None, higher: None }
    }

    pub fn nearest_node(&self, position: &u64) -> (r: &Node<T>)
        ensures
            *r == self.search(*position),
        decreases *self,
    {
        if *position < self.position {
            match &self.lower {
                Some(lower) => lower.nearest_node(position),
                None => self,
            }
        } else {
            match &self.higher {
                Some(higher) => higher.nearest_node(position),
                None => self,
            }
        }
    }

    /// A mutable handle on the node where the descent for `position`
    /// stops; the final tree is the old one with that node replaced by
    /// whatever the caller leaves behind the handle.
    pub fn nearest_node_mut(&mut self, position: &u64) -> (r: &mut Node<T>)
        ensures
            *r == old(self).search(*position),
            old(self).replaced(*position, *final(r), *final(self)),
        decreases *old(self),
    {
        if *position < self.position && self.lower.is_some() {
            self.lower.as_mut().unwrap().nearest_node_mut(position)
        } else if !(*position < self.position) && self.higher.is_some() {
            self.higher.as_mut().unwrap().nearest_node_mut(position)
        } else {
            self
        }
    }

    /// A mutable handle on the value stored at `position`, when the
    /// descent ends on that exact position.
    pub fn get_mut(&mut self, position: &u64) -> (r: Option<&mut T>)
        ensures
            match r {
                Some(v) => {
                    let found = old(self).search(*position);
                    &&& found.position == *position
                    &&& *v == found.value
                    &&& old(self).replaced(
                        *position,
                        (Node {
                            position: found.position,
                            value: *final(v),
                            lower: found.lower,
                            higher: found.higher,
                        }),
                        *final(self),
                    )
                },
                None => old(self).search(*position).position != *position && *final(self) == *old(
                    self,
                ),
            },
        decreases *old(self),
    {
        if *position < self.position && self.lower.is_some() {
            self.lower.as_mut().unwrap().get_mut(position)
        } else if !(*position < self.position) && self.higher.is_some() {
            self.higher.as_mut().unwrap().get_mut(position)
        } else if self.position == *position {
            Some(&mut self.value)
        } else {
            None
        }
    }

    /// Attaching a pair at the stop of the descent makes it the node that a
    /// later descent for the same position finds.
    proof fn lemma_inserted_search(self, p: u64, v: T, out: Node<T>)
        requires
            self.inserted(p, v, out),
        ensures
            out.search(p).position == p,
            out.search(p).value == v,
        decreases self,
    {
        if p < self.position {
            assert(p < out.position);
            match self.lower {
                Some(lower) => {
                    match out.lower {
                        Some(out_lower) => {
                            lower.lemma_inserted_search(p, v, *out_lower);
                            assert(out.search(p) == out_lower.search(p));
                        },
                        None => {
                            assert(false);
                        },
                    }
                },
                None => {
                    match out.lower {
                        Some(out_lower) => {
                            assert(out.search(p) == out_lower.search(p));
                            assert(!(p < out_lower.position));
                            assert(out_lower.search(p) == *out_lower);
                        },
                        None => {
                            assert(false);
                        },
                    }
                },
            }
        } else {
            assert(!(p < out.position));
            match self.higher {
                Some(higher) => {
                    match out.higher {
                        Some(out_higher) => {
                            higher.lemma_inserted_search(p, v, *out_higher);
                            assert(out.search(p) == out_higher.search(p));
                        },
                        None => {
                            assert(false);
                        },
                    }
                },
                None => {
                    match out.higher {
                        Some(out_higher) => {
                            assert(out.search(p) == out_higher.search(p));
                            assert(out_higher.search(p) == *out_higher);
                        },
                        None => {
                            assert(false);
                        },
                    }
                },
            }
        }
    }

    pub fn insert(&mut self, position: u64, value: T)
        ensures
            old(self).inserted(position, value, *final(self)),
            final(self).search(position).position == position,
            final(self).search(position).value == value,
        decreases *old(self),
    {
        if position < self.position {
            match &mut self.lower {
                Some(lower) => lower.insert(position, value),
                None => {
                    self.lower = Some(Box::new(Node::new(position, value)));
                },
            }
        } else {
            match &mut self.higher {
                Some(higher) => higher.insert(position, value),
                None => {
                    self.higher = Some(Box::new(Node::new(position, value)));
                },
            }
        }
        proof {
            old(self).lemma_inserted_search(position, value, *self);
        }
    }

    pub fn get(&self, position: &u64) -> (r: Option<&T>)
        ensures
            match r {
                Some(v) => self.search(*position).position == *position && *v == self.search(
                    *position,
                ).value,
                None => self.search(*position).position != *position,
            },
    {
        let near = self.nearest_node(position);
        if near.position == *position {
            Some(&near.value)
        } else {
            None
        }
    }

    pub fn nearest(&self, position: &u64) -> (r: Option<&T>)
        ensures
            match r {
                Some(v) => *v == self.search(*position).value,
                None => false,
            },
    {
        let near = self.nearest_node(position);
        Some(&near.value)
    }

    /// Collects up to `n` values along the higher chain from the nearest
    /// node, then up to `n` values along its lower chain (the nearest value
    /// itself opens both runs).
    pub fn nearest_n(&self, position: &u64, n: usize) -> (r: Vec<&T>)
        ensures
            ({
                let hc = self.search(*position).higher_chain();
                let lc = self.search(*position).lower_chain();
                let hk = if n <= hc.len() {
                    n as int
                } else {
                    hc.len() as int
                };
                let lk = if n <= lc.len() {
                    n as int
                } else {
                    lc.len() as int
                };
                &&& r@.len() == hk + lk
                &&& forall|j: int| 0 <= j < hk ==> *r@[j] == hc[j]
                &&& forall|j: int| 0 <= j < lk ==> *r@[hk + j] == lc[j]
            }),
    {
        let ghost hc = self.search(*position).higher_chain();
        let ghost lc = self.search(*position).lower_chain();
        let ghost hk: int = if n <= hc.len() {
            n as int
        } else {
            hc.len() as int
        };
        let ghost lk: int = if n <= lc.len() {
            n as int
        } else {
            lc.len() as int
        };
        let mut result: Vec<&T> = Vec::new();
        let mut current = self.nearest_node(position);
        let mut i: usize = 0;
        loop
            invariant_except_break
                hk == if n <= hc.len() {
                    n as int
                } else {
                    hc.len() as int
                },
                i <= n,
                result@.len() == i,
                i < hc.len() || (i == hc.len() && i == n),
                i < hc.len() ==> current.higher_chain() =~= hc.skip(i as int),
                forall|j: int| 0 <= j < i ==> *result@[j] == hc[j],
            ensures
                result@.len() == hk,
                forall|j: int| 0 <= j < hk ==> *result@[j] == hc[j],
            decreases n - i,
        {
            if i >= n {
                break ;
            }
            assert(i < hc.len());
            result.push(&current.value);
            assert(hc.skip(i as int)[0] == current.value);
            if let Some(higher) = &current.higher {
                proof {
                    assert(current.higher_chain() == seq![current.value] + higher.higher_chain());
                    assert(higher.higher_chain() =~= hc.skip(i as int).skip(1));
                    assert(hc.skip(i as int).skip(1) =~= hc.skip(i + 1));
                    assert(hc.len() > i + 1);
                }
                current = higher;
                i = i + 1;
            } else {
                proof {
                    assert(current.higher_chain() =~= seq![current.value]);
                    assert(hc.len() == i + 1);
                }
                break ;
            }
        }
        current = self.nearest_node(position);
        let mut i: usize = 0;
        loop
            invariant_except_break
                lk == if n <= lc.len() {
                    n as int
                } else {
                    lc.len() as int
                },
                hk == if n <= hc.len() {
                    n as int
                } else {
                    hc.len() as int
                },
                i <= n,
                result@.len() == hk + i,
                i < lc.len() || (i == lc.len() && i == n),
                i < lc.len() ==> current.lower_chain() =~= lc.skip(i as int),
                forall|j: int| 0 <= j < hk ==> *result@[j] == hc[j],
                forall|j: int| 0 <= j < i ==> *result@[hk + j] == lc[j],
            ensures
                result@.len() == hk + lk,
                forall|j: int| 0 <= j < hk ==> *result@[j] == hc[j],
                forall|j: int| 0 <= j < lk ==> *result@[hk + j] == lc[j],
            decreases n - i,
        {
            if i >= n {
                break ;
            }
            assert(i < lc.len());
            let ghost pre = result@;
            result.push(&current.value);
            proof {
                assert(lc.skip(i as int)[0] == current.value);
                assert(lc.skip(i as int)[0] == lc[i as int]);
                assert forall|j: int| 0 <= j && j <= i as int implies *result@[hk + j] == lc[j] by {
                    if j < i as int {
                        assert(pre.push(result@[hk + i as int]).len() == pre.len() + 1);
                        assert(pre.push(result@[hk + i as int])[hk + j] == pre[hk + j]);
                        assert(result@ == pre.push(result@[hk + i as int]));
                        assert(result@[hk + j] == pre[hk + j]);
                    } else {
                        assert(result@[hk + j] == pre.push(&current.value)[hk + i as int]);
                    }
                }
                assert forall|j: int| 0 <= j && j < hk implies *result@[j] == hc[j] by {
                    assert(result@[j] == pre[j]);
                }
            }
            if let Some(lower) = &current.lower {
                proof {
                    assert(current.lower_chain() == seq![current.value] + lower.lower_chain());
                    assert(lower.lower_chain() =~= lc.skip(i as int).skip(1));
                    assert(lc.skip(i as int).skip(1) =~= lc.skip(i + 1));
                    assert(lc.len() > i + 1);
                }
                current = lower;
                i = i + 1;
            } else {
                proof {
                    assert(current.lower_chain() =~= seq![current.value]);
                    assert(lc.len() == i + 1);
                }
                break ;
            }
        }
        result
    }
}

} // verus!
