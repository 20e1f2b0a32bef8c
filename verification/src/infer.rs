//! Inference variables, and the union-find over them.
//!
//! A variable is an index into [`Inference`], one context per body. A type in
//! progress is an [`InferTy`]: known, or a variable standing for one; there is
//! no variable inside a type. `find` compresses by path halving and `union`
//! goes by size.

use vstd::prelude::*;

use crate::ty::{mentions_error, Ty, Types};

verus! {

/// Where in the source something is: a byte range.
#[derive(Debug, Clone, Copy, PartialEq, Eq, Structural, Hash)]
pub struct Span {
    pub start: usize,
    pub end: usize,
}

/// A type the checker has not pinned down yet: an index into [`Inference`].
#[derive(Debug, Clone, Copy, PartialEq, Eq, Structural, PartialOrd, Ord, Hash)]
pub struct InferVar(pub u32);

impl InferVar {
    /// The variable's number.
    pub open spec fn spec_index(self) -> int {
        self.0 as int
    }

    /// The variable's number, for a dump and for a side table.
    pub fn index(self) -> (i: usize)
        ensures
            i == self.spec_index(),
    {
        self.0 as usize
    }
}

/// A type in progress: known, or a variable standing for one.
#[derive(Debug, Clone, Copy, PartialEq, Eq, Structural, Hash)]
pub enum InferTy {
    /// An interned type.
    Known(Ty),
    /// A hole.
    Var(InferVar),
}

impl InferTy {
    /// The type, when it is known.
    pub fn known(self) -> (ty: Option<Ty>)
        ensures
            ty == (match self {
                InferTy::Known(t) => Some(t),
                InferTy::Var(_) => None,
            }),
    {
        match self {
            InferTy::Known(ty) => Some(ty),
            InferTy::Var(_) => None,
        }
    }
}

/// Two types that had to be one and were not.
#[derive(Debug, Clone, Copy, PartialEq, Eq, Structural)]
pub enum UnifyError {
    /// Neither type is the error type and they are not equal.
    Mismatch { left: Ty, right: Ty },
}

/// Two known types, made one: equal types are themselves, a type that
/// mentions the error type yields to the other, and anything else is a
/// mismatch.
pub open spec fn agreement(kinds: Seq<crate::ty::KindView>, left: Ty, right: Ty) -> Result<Ty, UnifyError> {
    if left == right {
        Ok(left)
    } else if mentions_error(kinds, left.0 as int) {
        Ok(right)
    } else if mentions_error(kinds, right.0 as int) {
        Ok(left)
    } else {
        Err(UnifyError::Mismatch { left, right })
    }
}

/// **An erroneous type never wins over a sound one.** Two types agree on one
/// of themselves or not at all; when exactly one of them mentions the error
/// type they always agree, on the other one, whichever side it is on; two
/// different sound types never agree; and the order of the two decides
/// nothing but which of two equal-standing answers comes back.
pub proof fn law_agreement_keeps_the_sound_side(kinds: Seq<crate::ty::KindView>, left: Ty, right: Ty)
    ensures
        agreement(kinds, left, right) matches Ok(t) ==> t == left || t == right,
        mentions_error(kinds, right.0 as int) && !mentions_error(kinds, left.0 as int) ==> agreement(kinds, left, right)
            == Ok::<Ty, UnifyError>(left),
        mentions_error(kinds, left.0 as int) && !mentions_error(kinds, right.0 as int) ==> agreement(kinds, left, right)
            == Ok::<Ty, UnifyError>(right),
        !mentions_error(kinds, left.0 as int) || !mentions_error(kinds, right.0 as int) ==> (agreement(kinds, left, right)
            matches Ok(t) ==> !mentions_error(kinds, t.0 as int)),
        !mentions_error(kinds, left.0 as int) && !mentions_error(kinds, right.0 as int) && left != right ==> agreement(
            kinds,
            left,
            right,
        ) is Err,
        (agreement(kinds, left, right) is Ok) == (agreement(kinds, right, left) is Ok),
{
}

/// Whether two class bindings are both there and do not agree.
pub open spec fn clash(kinds: Seq<crate::ty::KindView>, x: Option<Ty>, y: Option<Ty>) -> bool {
    match (x, y) {
        (Some(a), Some(b)) => agreement(kinds, a, b) is Err,
        _ => false,
    }
}

/// The binding two classes have once they are one: the binding either had,
/// and what the two bindings agree on when both had one.
pub open spec fn merged_binding(kinds: Seq<crate::ty::KindView>, x: Option<Ty>, y: Option<Ty>) -> Option<Ty> {
    match (x, y) {
        (Some(a), Some(b)) => match agreement(kinds, a, b) {
            Ok(t) => Some(t),
            Err(_) => None,
        },
        (Some(a), None) => Some(a),
        (None, Some(b)) => Some(b),
        (None, None) => None,
    }
}

/// What an [`Inference`] knows: each variable's representative, each
/// variable's class binding, and where each variable was made.
pub ghost struct InferenceView {
    pub reps: Seq<int>,
    pub bindings: Seq<Option<Ty>>,
    pub origins: Seq<Span>,
}

/// The inference context for one body.
pub struct Inference {
    /// `parent[i] == i` marks a root.
    parent: Vec<u32>,
    /// The size of the tree under each root, for union by size.
    size: Vec<u32>,
    /// What the root of each class is bound to, if anything.
    binding: Vec<Option<Ty>>,
    /// Where each variable was made.
    origin: Vec<Span>,
    /// The root each variable's parent chain ends at.
    rep: Ghost<Seq<int>>,
    /// Strictly increasing along every parent edge, so that `find` ends.
    rank: Ghost<Seq<nat>>,
    /// No rank exceeds it.
    max_rank: Ghost<nat>,
}

/// How many of the first `n` variables have representative `r`.
pub open spec fn class_count(reps: Seq<int>, r: int, n: int) -> nat
    decreases n,
{
    if n <= 0 {
        0
    } else {
        class_count(reps, r, n - 1) + if reps[n - 1] == r {
            1nat
        } else {
            0nat
        }
    }
}

/// The class binding of a type in progress, resolved: a known type, the
/// binding of a variable's class, or the class's representative.
pub open spec fn resolved(v: InferenceView, ty: InferTy) -> InferTy {
    match ty {
        InferTy::Known(t) => InferTy::Known(t),
        InferTy::Var(var) => match v.bindings[var.0 as int] {
            Some(t) => InferTy::Known(t),
            None => InferTy::Var(InferVar(v.reps[var.0 as int] as u32)),
        },
    }
}

impl View for Inference {
    type V = InferenceView;

    closed spec fn view(&self) -> InferenceView {
        InferenceView {
            reps: self.rep@,
            bindings: Seq::new(
                self.parent@.len(),
                |i: int| self.binding@[self.rep@[i]],
            ),
            origins: self.origin@,
        }
    }
}

impl Inference {
    /// The internal invariant: parallel vectors, representatives that are
    /// roots and shared along every parent edge, ranks that rise towards the
    /// root, and each root's size the size of its class.
    #[verifier::opaque]
    pub closed spec fn wf(&self) -> bool {
        let n = self.parent@.len();
        &&& n <= u32::MAX
        &&& self.size@.len() == n
        &&& self.binding@.len() == n
        &&& self.origin@.len() == n
        &&& self.rep@.len() == n
        &&& self.rank@.len() == n
        &&& forall|i: int| 0 <= i < n ==> (#[trigger] self.parent@[i]) < n
        &&& forall|i: int| 0 <= i < n ==> 0 <= #[trigger] self.rep@[i] < n
        &&& forall|i: int| 0 <= i < n ==> self.parent@[#[trigger] self.rep@[i]] == self.rep@[i]
        &&& forall|i: int|
            0 <= i < n ==> self.rep@[self.parent@[i] as int] == #[trigger] self.rep@[i]
        &&& forall|i: int| 0 <= i < n && #[trigger] self.parent@[i] == i ==> self.rep@[i] == i
        &&& forall|i: int|
            0 <= i < n && #[trigger] self.parent@[i] != i ==> self.rank@[self.parent@[i] as int]
                > self.rank@[i]
        &&& forall|i: int| 0 <= i < n ==> #[trigger] self.rank@[i] <= self.max_rank@
        &&& forall|i: int|
            0 <= i < n && #[trigger] self.parent@[i] == i ==> self.size@[i] == class_count(
                self.rep@,
                i,
                n as int,
            )
    }

    /// Every type a class is bound to is a type of `types`.
    pub open spec fn bound_in(&self, types: &Types) -> bool {
        forall|i: int|
            0 <= i < self@.reps.len() ==> (#[trigger] self@.bindings[i] matches Some(t)
                ==> types.valid(t))
    }

    /// The view's own consistency, which a well-formed context has.
    pub open spec fn consistent(v: InferenceView) -> bool {
        &&& v.bindings.len() == v.reps.len()
        &&& v.origins.len() == v.reps.len()
        &&& forall|i: int| 0 <= i < v.reps.len() ==> 0 <= #[trigger] v.reps[i] < v.reps.len()
        &&& forall|i: int| 0 <= i < v.reps.len() ==> v.reps[#[trigger] v.reps[i]] == v.reps[i]
        &&& forall|i: int|
            0 <= i < v.reps.len() ==> v.bindings[#[trigger] v.reps[i]] == v.bindings[i]
    }

    proof fn lemma_consistent(&self)
        requires
            self.wf(),
        ensures
            Self::consistent(self@),
            self@.reps.len() <= u32::MAX,
            self.parent@.len() == self@.reps.len(),
            self.binding@.len() == self@.reps.len(),
            forall|i: int|
                0 <= i < self@.reps.len() ==> #[trigger] self@.bindings[i] == self.binding@[self@.reps[i]],
    {
        reveal(Inference::wf);
        let v = self@;
        assert forall|i: int| 0 <= i < v.reps.len() implies v.reps[#[trigger] v.reps[i]]
            == v.reps[i] by {
            let r = self.rep@[i];
            assert(self.parent@[r] == r);
        }
        assert forall|i: int| 0 <= i < v.reps.len() implies v.bindings[#[trigger] v.reps[i]]
            == v.bindings[i] by {
            let r = self.rep@[i];
            assert(self.parent@[r] == r);
        }
    }

    /// A representative is its own representative, and its class's binding
    /// is the binding of every member.
    pub proof fn law_representative_is_own(&self)
        requires
            self.wf(),
        ensures
            forall|i: int| 0 <= i < self@.reps.len() ==> self@.reps[#[trigger] self@.reps[i]] == self@.reps[i],
            forall|i: int| 0 <= i < self@.reps.len() ==> self@.bindings[#[trigger] self@.reps[i]] == self@.bindings[i],
    {
        self.lemma_consistent();
    }

    /// An empty context. One per body.
    pub fn new() -> (inference: Inference)
        ensures
            inference.wf(),
            inference@.reps.len() == 0,
    {
        reveal(Inference::wf);
        Inference {
            parent: Vec::new(),
            size: Vec::new(),
            binding: Vec::new(),
            origin: Vec::new(),
            rep: Ghost(Seq::empty()),
            rank: Ghost(Seq::empty()),
            max_rank: Ghost(0),
        }
    }

    /// A fresh variable, standing for the type of the expression at `span`.
    pub fn fresh(&mut self, span: Span) -> (var: InferVar)
        requires
            old(self).wf(),
            old(self)@.reps.len() < u32::MAX,
        ensures
            final(self).wf(),
            var.spec_index() == old(self)@.reps.len(),
            final(self)@.reps == old(self)@.reps.push(var.spec_index()),
            final(self)@.bindings == old(self)@.bindings.push(None),
            final(self)@.origins == old(self)@.origins.push(span),
    {
        reveal(Inference::wf);
        let index = self.parent.len() as u32;
        let ghost n = self.parent@.len() as int;
        let ghost old_rep = self.rep@;
        self.parent.push(index);
        self.size.push(1);
        self.binding.push(None);
        self.origin.push(span);
        self.rep = Ghost(self.rep@.push(n));
        self.rank = Ghost(self.rank@.push(0));
        proof {
            let rep = self.rep@;
            assert forall|r: int| 0 <= r < n implies class_count(rep, r, n + 1) == class_count(
                old_rep,
                r,
                n,
            ) by {
                lemma_class_count_push(old_rep, n, r, n);
            }
            assert forall|i: int| 0 <= i < n implies old_rep[i] != n by {
                assert(0 <= #[trigger] old_rep[i] < n);
            }
            lemma_class_count_absent(old_rep, n, n);
            lemma_class_count_push(old_rep, n, n, n);
            assert forall|i: int|
                0 <= i < n + 1 && #[trigger] self.parent@[i] == i implies self.size@[i]
                == class_count(self.rep@, i, n + 1) by {
                if i < n {
                    assert(self.parent@[i] == old(self).parent@[i]);
                }
            }
            assert(self@.reps =~= old(self)@.reps.push(n));
            assert(self@.bindings =~= old(self)@.bindings.push(None));
        }
        InferVar(index)
    }

    /// How many variables this body has made.
    pub fn len(&self) -> (n: usize)
        requires
            self.wf(),
        ensures
            n == self@.reps.len(),
    {
        reveal(Inference::wf);
        self.parent.len()
    }

    /// Whether this body has made no variable.
    pub fn is_empty(&self) -> (r: bool)
        requires
            self.wf(),
        ensures
            r == (self@.reps.len() == 0),
    {
        reveal(Inference::wf);
        self.parent.len() == 0
    }

    /// Where the variable was made.
    pub fn origin(&self, var: InferVar) -> (span: Span)
        requires
            self.wf(),
            var.spec_index() < self@.reps.len(),
        ensures
            span == self@.origins[var.spec_index()],
    {
        reveal(Inference::wf);
        self.origin[var.index()]
    }

    /// The representative of the variable's class, compressing on the way.
    pub fn find(&mut self, var: InferVar) -> (root: InferVar)
        requires
            old(self).wf(),
            var.spec_index() < old(self)@.reps.len(),
        ensures
            final(self).wf(),
            final(self)@ == old(self)@,
            root.spec_index() == old(self)@.reps[var.spec_index()],
            root.spec_index() < old(self)@.reps.len(),
            old(self)@.reps[root.spec_index()] == root.spec_index(),
    {
        proof {
            old(self).lemma_consistent();
        }
        reveal(Inference::wf);
        let ghost n = self.parent@.len() as int;
        let mut current = var.0;
        while self.parent[current as usize] != current
            invariant
                self.wf(),
                self.parent@.len() == n,
                self@ == old(self)@,
                self.rank@ == old(self).rank@,
                self.max_rank@ == old(self).max_rank@,
                self.size@ == old(self).size@,
                0 <= current < n,
                self.rep@[current as int] == self.rep@[var.spec_index()],
            decreases self.max_rank@ - self.rank@[current as int],
        {
            proof {
                reveal(Inference::wf);
            }
            let parent = self.parent[current as usize];
            let grandparent = self.parent[parent as usize];
            let ghost before = self.parent@;
            self.parent.set(current as usize, grandparent);
            proof {
                let p = parent as int;
                let c = current as int;
                assert(self.rep@[p] == self.rep@[c]);
                assert(self.rep@[grandparent as int] == self.rep@[p]);
                assert forall|i: int|
                    0 <= i < n && #[trigger] self.parent@[i] == i implies self.size@[i]
                    == class_count(self.rep@, i, n) by {
                    if i != c {
                        assert(self.parent@[i] == before[i]);
                    } else {
                        assert(before[c] != c);
                        if grandparent as int == c {
                            assert(self.rank@[grandparent as int] > self.rank@[p]);
                        }
                    }
                }
                assert forall|i: int| 0 <= i < n implies self.parent@[#[trigger] self.rep@[i]]
                    == self.rep@[i] by {
                    let r = self.rep@[i];
                    assert(before[r] == r);
                    if r == c {
                        assert(before[c] == c);
                    }
                }
                assert forall|i: int|
                    0 <= i < n && #[trigger] self.parent@[i] != i implies self.rank@[self.parent@[
                    i
                ] as int] > self.rank@[i] by {
                    if i == c {
                        assert(before[p] != p || before[p] == p);
                        if before[p] != p {
                            assert(self.rank@[before[p] as int] > self.rank@[p]);
                        }
                    }
                }
                assert forall|i: int| 0 <= i < n && #[trigger] self.parent@[i] == i implies self.rep@[i]
                    == i by {
                    if i == c {
                        assert(self.rank@[grandparent as int] > self.rank@[c]) by {
                            if before[p] != p {
                                assert(self.rank@[before[p] as int] > self.rank@[p]);
                            }
                        }
                    }
                }
            }
            current = grandparent;
        }
        InferVar(current)
    }

    /// What the variable's class is bound to, if it is bound.
    pub fn binding(&mut self, var: InferVar) -> (ty: Option<Ty>)
        requires
            old(self).wf(),
            var.spec_index() < old(self)@.reps.len(),
        ensures
            final(self).wf(),
            final(self)@ == old(self)@,
            ty == old(self)@.bindings[var.spec_index()],
    {
        let root = self.find(var);
        proof {
            self.lemma_consistent();
        }
        self.binding[root.index()]
    }

    /// The type in progress resolved as far as it goes: a type, or the
    /// representative of its class.
    pub fn resolve(&mut self, ty: InferTy) -> (r: InferTy)
        requires
            old(self).wf(),
            ty matches InferTy::Var(v) ==> v.spec_index() < old(self)@.reps.len(),
        ensures
            final(self).wf(),
            final(self)@ == old(self)@,
            r == resolved(old(self)@, ty),
    {
        match ty {
            InferTy::Known(known) => InferTy::Known(known),
            InferTy::Var(var) => match self.binding(var) {
                Some(known) => InferTy::Known(known),
                None => {
                    let root = self.find(var);
                    proof {
                        assert(root.0 as int == root.spec_index());
                    }
                    InferTy::Var(root)
                },
            },
        }
    }

    /// Binds the variable's class to a type. A class that is already bound is
    /// made to agree with what it is bound to rather than overwritten, so
    /// binding twice to two types that do not agree is a mismatch.
    pub fn bind(&mut self, types: &Types, var: InferVar, ty: Ty) -> (r: Result<Ty, UnifyError>)
        requires
            old(self).wf(),
            types.wf(),
            old(self).bound_in(types),
            types.valid(ty),
            var.spec_index() < old(self)@.reps.len(),
        ensures
            final(self).wf(),
            final(self).bound_in(types),
            final(self)@.reps == old(self)@.reps,
            final(self)@.origins == old(self)@.origins,
            r == (match old(self)@.bindings[var.spec_index()] {
                None => Ok(ty),
                Some(existing) => agreement(types@, existing, ty),
            }),
            r matches Ok(t) ==> forall|i: int|
                0 <= i < old(self)@.reps.len() ==> #[trigger] final(self)@.bindings[i] == if old(
                    self,
                )@.reps[i] == old(self)@.reps[var.spec_index()] {
                    Some(t)
                } else {
                    old(self)@.bindings[i]
                },
            r is Err ==> final(self)@ == old(self)@,
    {
        let root = self.find(var);
        proof {
            self.lemma_consistent();
        }
        let r = root.index();
        match self.binding[r] {
            None => {
                self.set_binding(root, Some(ty));
                Ok(ty)
            },
            Some(existing) => {
                proof {
                    assert(old(self)@.bindings[var.spec_index()] == Some(existing));
                }
                let settled = agree(types, existing, ty)?;
                self.set_binding(root, Some(settled));
                Ok(settled)
            },
        }
    }

    /// Sets the binding of a root's class.
    fn set_binding(&mut self, root: InferVar, value: Option<Ty>)
        requires
            old(self).wf(),
            root.spec_index() < old(self)@.reps.len(),
            old(self)@.reps[root.spec_index()] == root.spec_index(),
        ensures
            final(self).wf(),
            final(self)@.reps == old(self)@.reps,
            final(self)@.origins == old(self)@.origins,
            forall|i: int|
                0 <= i < old(self)@.reps.len() ==> #[trigger] final(self)@.bindings[i] == if old(
                    self,
                )@.reps[i] == root.spec_index() {
                    value
                } else {
                    old(self)@.bindings[i]
                },
    {
        reveal(Inference::wf);
        self.binding.set(root.index(), value);
        proof {
            assert(self@.reps == old(self)@.reps);
        }
    }

    /// Makes two types one, or says they are not. Equality, not
    /// assignability: the result is what the two are now, a type when either
    /// side knew one and the class's representative when neither did.
    pub fn unify(&mut self, types: &Types, left: InferTy, right: InferTy) -> (r: Result<
        InferTy,
        UnifyError,
    >)
        requires
            old(self).wf(),
            types.wf(),
            old(self).bound_in(types),
            left matches InferTy::Known(t) ==> types.valid(t),
            right matches InferTy::Known(t) ==> types.valid(t),
            left matches InferTy::Var(v) ==> v.spec_index() < old(self)@.reps.len(),
            right matches InferTy::Var(v) ==> v.spec_index() < old(self)@.reps.len(),
        ensures
            final(self).wf(),
            final(self).bound_in(types),
            final(self)@.origins == old(self)@.origins,
            r is Err ==> final(self)@ == old(self)@,
            r matches Ok(t) ==> (left is Var ==> t == resolved(final(self)@, left)) && (right is Var
                ==> t == resolved(final(self)@, right)),
            match (left, right) {
                (InferTy::Known(a), InferTy::Known(b)) => {
                    &&& final(self)@ == old(self)@
                    &&& r == match agreement(types@, a, b) {
                        Ok(t) => Ok(InferTy::Known(t)),
                        Err(e) => Err(e),
                    }
                },
                (InferTy::Var(v), InferTy::Known(t)) | (InferTy::Known(t), InferTy::Var(v)) => {
                    &&& final(self)@.reps == old(self)@.reps
                    &&& r is Err <==> clash(types@, old(self)@.bindings[v.spec_index()], Some(t))
                    &&& r == match old(self)@.bindings[v.spec_index()] {
                        None => Ok(InferTy::Known(t)),
                        Some(existing) => match agreement(types@, existing, t) {
                            Ok(s) => Ok(InferTy::Known(s)),
                            Err(e) => Err(e),
                        },
                    }
                    &&& r matches Ok(InferTy::Known(s)) ==> forall|i: int|
                        0 <= i < old(self)@.reps.len() ==> #[trigger] final(self)@.bindings[i] == if old(
                            self,
                        )@.reps[i] == old(self)@.reps[v.spec_index()] {
                            Some(s)
                        } else {
                            old(self)@.bindings[i]
                        }
                },
                (InferTy::Var(a), InferTy::Var(b)) => {
                    let ra = old(self)@.reps[a.spec_index()];
                    let rb = old(self)@.reps[b.spec_index()];
                    &&& r is Err <==> (ra != rb && clash(
                        types@,
                        old(self)@.bindings[a.spec_index()],
                        old(self)@.bindings[b.spec_index()],
                    ))
                    &&& r is Ok ==> {
                        let root = final(self)@.reps[a.spec_index()];
                        let merged = if ra == rb {
                            old(self)@.bindings[a.spec_index()]
                        } else {
                            merged_binding(
                                types@,
                                old(self)@.bindings[a.spec_index()],
                                old(self)@.bindings[b.spec_index()],
                            )
                        };
                        &&& root == ra || root == rb
                        &&& forall|i: int|
                            0 <= i < old(self)@.reps.len() ==> #[trigger] final(self)@.reps[i]
                                == if old(self)@.reps[i] == ra || old(self)@.reps[i] == rb {
                                root
                            } else {
                                old(self)@.reps[i]
                            }
                        &&& forall|i: int|
                            0 <= i < old(self)@.reps.len() ==> #[trigger] final(self)@.bindings[i]
                                == if old(self)@.reps[i] == ra || old(self)@.reps[i] == rb {
                                merged
                            } else {
                                old(self)@.bindings[i]
                            }
                    }
                },
            },
    {
        proof {
            old(self).lemma_consistent();
        }
        match (left, right) {
            (InferTy::Known(a), InferTy::Known(b)) => {
                let t = agree(types, a, b)?;
                Ok(InferTy::Known(t))
            },
            (InferTy::Var(var), InferTy::Known(ty)) | (InferTy::Known(ty), InferTy::Var(var)) => {
                let t = self.bind(types, var, ty)?;
                proof {
                    self.lemma_consistent();
                    assert(self@.bindings[var.spec_index()] == Some(t));
                }
                Ok(InferTy::Known(t))
            },
            (InferTy::Var(a), InferTy::Var(b)) => {
                let left_root = self.find(a);
                let right_root = self.find(b);
                proof {
                    self.lemma_consistent();
                }
                if left_root.0 == right_root.0 {
                    let resolved = self.resolve(InferTy::Var(left_root));
                    proof {
                        self.lemma_consistent();
                        assert(self@.reps[left_root.spec_index()] == left_root.spec_index());
                    }
                    return Ok(resolved);
                }
                let settled = match (
                    self.binding[left_root.index()],
                    self.binding[right_root.index()],
                ) {
                    (Some(x), Some(y)) => Some(agree(types, x, y)?),
                    (Some(x), None) => Some(x),
                    (None, Some(y)) => Some(y),
                    (None, None) => None,
                };
                let root = self.union(left_root, right_root);
                self.set_binding(root, settled);
                proof {
                    self.lemma_consistent();
                    assert(self@.reps[a.spec_index()] == root.spec_index());
                    assert(self@.reps[b.spec_index()] == root.spec_index());
                    assert(self@.reps[root.spec_index()] == root.spec_index());
                    assert(root.0 as int == root.spec_index());
                }
                Ok(
                    match settled {
                        Some(ty) => InferTy::Known(ty),
                        None => InferTy::Var(root),
                    },
                )
            },
        }
    }

    /// Every class that is still unbound, one entry per class, by number.
    pub fn unresolved(&mut self) -> (roots: Vec<InferVar>)
        requires
            old(self).wf(),
        ensures
            final(self).wf(),
            final(self)@ == old(self)@,
            forall|k: int, l: int|
                0 <= k < l < roots@.len() ==> (#[trigger] roots@[k]).spec_index() < (
                #[trigger] roots@[l]).spec_index(),
            forall|k: int|
                0 <= k < roots@.len() ==> {
                    let i = (#[trigger] roots@[k]).spec_index();
                    &&& 0 <= i < old(self)@.reps.len()
                    &&& old(self)@.reps[i] == i
                    &&& old(self)@.bindings[i] is None
                },
            forall|i: int|
                0 <= i < old(self)@.reps.len() && old(self)@.reps[i] == i
                    && #[trigger] old(self)@.bindings[i] is None ==> exists|k: int|
                    0 <= k < roots@.len() && (#[trigger] roots@[k]).spec_index() == i,
    {
        let mut roots: Vec<InferVar> = Vec::new();
        proof {
            self.lemma_consistent();
        }
        let n = self.parent.len() as u32;
        let mut index: u32 = 0;
        while index < n
            invariant
                self.wf(),
                self@ == old(self)@,
                n == self@.reps.len(),
                index <= n,
                forall|k: int, l: int|
                    0 <= k < l < roots@.len() ==> (#[trigger] roots@[k]).spec_index() < (
                    #[trigger] roots@[l]).spec_index(),
                forall|k: int|
                    0 <= k < roots@.len() ==> {
                        let i = (#[trigger] roots@[k]).spec_index();
                        &&& 0 <= i < index
                        &&& self@.reps[i] == i
                        &&& self@.bindings[i] is None
                    },
                forall|i: int|
                    0 <= i < index && self@.reps[i] == i && #[trigger] self@.bindings[i] is None
                        ==> exists|k: int| 0 <= k < roots@.len() && (#[trigger] roots@[k]).spec_index() == i,
            decreases n - index,
        {
            let root = self.find(InferVar(index));
            proof {
                self.lemma_consistent();
            }
            if root.0 == index && self.binding[root.index()].is_none() {
                let ghost before = roots@;
                roots.push(root);
                proof {
                    assert(roots@[roots@.len() - 1] == root);
                    assert forall|i: int|
                        0 <= i < index + 1 && self@.reps[i] == i && #[trigger] self@.bindings[i] is None
                            implies exists|k: int| 0 <= k < roots@.len() && (#[trigger] roots@[k]).spec_index() == i by {
                        if i < index {
                            let k = choose|k: int| 0 <= k < before.len() && (#[trigger] before[k]).spec_index() == i;
                            assert(roots@[k] == before[k]);
                        } else {
                            assert(roots@[roots@.len() - 1].spec_index() == i);
                        }
                    }
                }
            } else {
                proof {
                    assert forall|i: int|
                        0 <= i < index + 1 && self@.reps[i] == i && #[trigger] self@.bindings[i] is None
                            implies exists|k: int| 0 <= k < roots@.len() && (#[trigger] roots@[k]).spec_index() == i by {
                        if i == index {
                            assert(self@.bindings[i] == self.binding@[self@.reps[i]]);
                        }
                    }
                }
            }
            index = index + 1;
        }
        roots
    }

    /// Union by size. Both arguments must be distinct roots.
    fn union(&mut self, left: InferVar, right: InferVar) -> (root: InferVar)
        requires
            old(self).wf(),
            left.spec_index() < old(self)@.reps.len(),
            right.spec_index() < old(self)@.reps.len(),
            old(self)@.reps[left.spec_index()] == left.spec_index(),
            old(self)@.reps[right.spec_index()] == right.spec_index(),
            left != right,
        ensures
            final(self).wf(),
            root == left || root == right,
            final(self)@.reps.len() == old(self)@.reps.len(),
            final(self)@.origins == old(self)@.origins,
            forall|i: int|
                0 <= i < old(self)@.reps.len() ==> #[trigger] final(self)@.reps[i] == if old(
                    self,
                )@.reps[i] == left.spec_index() || old(self)@.reps[i] == right.spec_index() {
                    root.spec_index()
                } else {
                    old(self)@.reps[i]
                },
            forall|i: int|
                0 <= i < old(self)@.reps.len() && old(self)@.reps[i] != left.spec_index() && old(
                    self,
                )@.reps[i] != right.spec_index() ==> #[trigger] final(self)@.bindings[i] == old(
                    self,
                )@.bindings[i],
    {
        reveal(Inference::wf);
        let ghost n = self.parent@.len() as int;
        let l = left.index();
        let r = right.index();
        proof {
            assert(self.parent@[l as int] == l);
            assert(self.parent@[r as int] == r);
            lemma_class_count_pair(self.rep@, l as int, r as int, n);
        }
        let (larger, smaller) = if self.size[l] >= self.size[r] {
            (left, right)
        } else {
            (right, left)
        };
        let big = larger.index();
        let small = smaller.index();
        let ghost old_rep = self.rep@;
        let new_size = self.size[big] + self.size[small];
        self.parent.set(small, larger.0);
        self.size.set(big, new_size);
        let ghost new_rep = Seq::new(
            n as nat,
            |i: int|
                if old_rep[i] == small as int {
                    big as int
                } else {
                    old_rep[i]
                },
        );
        self.rep = Ghost(new_rep);
        let ghost raised = if self.rank@[big as int] > self.rank@[small as int] {
            self.rank@[big as int]
        } else {
            self.rank@[small as int] + 1
        };
        self.rank = Ghost(self.rank@.update(big as int, raised));
        self.max_rank = Ghost(
            if raised > self.max_rank@ {
                raised
            } else {
                self.max_rank@
            },
        );
        proof {
            let parent = self.parent@;
            assert forall|i: int| 0 <= i < n implies self.parent@[#[trigger] self.rep@[i]]
                == self.rep@[i] by {
                assert(old(self).parent@[old_rep[i]] == old_rep[i]);
            }
            assert forall|i: int| 0 <= i < n implies self.rep@[self.parent@[i] as int]
                == #[trigger] self.rep@[i] by {
                if i != small as int {
                    assert(old_rep[old(self).parent@[i] as int] == old_rep[i]);
                } else {
                    assert(old(self).parent@[big as int] == big as int);
                }
            }
            assert forall|i: int| 0 <= i < n && #[trigger] self.parent@[i] == i implies self.rep@[i]
                == i by {
                assert(old(self).parent@[i] == i);
            }
            assert forall|i: int|
                0 <= i < n && #[trigger] self.parent@[i] != i implies self.rank@[self.parent@[i] as int]
                > self.rank@[i] by {
                if i != small as int {
                    assert(old(self).parent@[i] != i);
                    assert(old(self).rank@[old(self).parent@[i] as int] > old(self).rank@[i]);
                    if i == big as int {
                        assert(old(self).parent@[big as int] == big as int);
                    }
                }
            }
            assert forall|i: int| 0 <= i < n implies #[trigger] self.rank@[i] <= self.max_rank@ by {
            }
            assert forall|i: int|
                0 <= i < n && #[trigger] self.parent@[i] == i implies self.size@[i] == class_count(
                self.rep@,
                i,
                n,
            ) by {
                assert(old(self).parent@[i] == i);
                if i == big as int {
                    lemma_class_count_merge(old_rep, new_rep, big as int, small as int, n);
                } else {
                    lemma_class_count_other(old_rep, new_rep, big as int, small as int, i, n);
                }
            }
            assert forall|i: int| 0 <= i < n implies #[trigger] self@.bindings[i] == if old(
                self,
            )@.reps[i] == left.spec_index() || old(self)@.reps[i] == right.spec_index() {
                self.binding@[big as int]
            } else {
                old(self)@.bindings[i]
            } by {
            }
        }
        larger
    }
}

/// Two known types, made one.
fn agree(types: &Types, left: Ty, right: Ty) -> (r: Result<Ty, UnifyError>)
    requires
        types.wf(),
        types.valid(left),
        types.valid(right),
    ensures
        r == agreement(types@, left, right),
        r matches Ok(t) ==> t == left || t == right,
{
    if left == right {
        return Ok(left);
    }
    if types.references_error(left) {
        return Ok(right);
    }
    if types.references_error(right) {
        return Ok(left);
    }
    Err(UnifyError::Mismatch { left, right })
}

proof fn lemma_class_count_prefix(a: Seq<int>, b: Seq<int>, r: int, n: int)
    requires
        0 <= n <= a.len(),
        n <= b.len(),
        forall|i: int| 0 <= i < n ==> a[i] == b[i],
    ensures
        class_count(a, r, n) == class_count(b, r, n),
    decreases n,
{
    if n > 0 {
        lemma_class_count_prefix(a, b, r, n - 1);
    }
}

proof fn lemma_class_count_push(reps: Seq<int>, x: int, r: int, n: int)
    requires
        n == reps.len(),
    ensures
        class_count(reps.push(x), r, n + 1) == class_count(reps, r, n) + if x == r {
            1nat
        } else {
            0nat
        },
{
    lemma_class_count_prefix(reps.push(x), reps, r, n);
    assert(reps.push(x)[n] == x);
}

proof fn lemma_class_count_absent(reps: Seq<int>, r: int, n: int)
    requires
        0 <= n <= reps.len(),
        forall|i: int| 0 <= i < n ==> reps[i] != r,
    ensures
        class_count(reps, r, n) == 0,
    decreases n,
{
    if n > 0 {
        lemma_class_count_absent(reps, r, n - 1);
    }
}

proof fn lemma_class_count_pair(reps: Seq<int>, a: int, b: int, n: int)
    requires
        0 <= n <= reps.len(),
        a != b,
    ensures
        class_count(reps, a, n) + class_count(reps, b, n) <= n,
    decreases n,
{
    if n > 0 {
        lemma_class_count_pair(reps, a, b, n - 1);
    }
}

proof fn lemma_class_count_merge(old_rep: Seq<int>, new_rep: Seq<int>, big: int, small: int, n: int)
    requires
        0 <= n <= old_rep.len(),
        new_rep.len() == old_rep.len(),
        big != small,
        forall|i: int|
            0 <= i < old_rep.len() ==> #[trigger] new_rep[i] == if old_rep[i] == small {
                big
            } else {
                old_rep[i]
            },
    ensures
        class_count(new_rep, big, n) == class_count(old_rep, big, n) + class_count(old_rep, small, n),
    decreases n,
{
    if n > 0 {
        lemma_class_count_merge(old_rep, new_rep, big, small, n - 1);
        assert(new_rep[n - 1] == if old_rep[n - 1] == small {
            big
        } else {
            old_rep[n - 1]
        });
    }
}

proof fn lemma_class_count_other(
    old_rep: Seq<int>,
    new_rep: Seq<int>,
    big: int,
    small: int,
    r: int,
    n: int,
)
    requires
        0 <= n <= old_rep.len(),
        new_rep.len() == old_rep.len(),
        r != big,
        r != small,
        forall|i: int|
            0 <= i < old_rep.len() ==> #[trigger] new_rep[i] == if old_rep[i] == small {
                big
            } else {
                old_rep[i]
            },
    ensures
        class_count(new_rep, r, n) == class_count(old_rep, r, n),
    decreases n,
{
    if n > 0 {
        lemma_class_count_other(old_rep, new_rep, big, small, r, n - 1);
        assert(new_rep[n - 1] == if old_rep[n - 1] == small {
            big
        } else {
            old_rep[n - 1]
        });
    }
}

} // verus!
