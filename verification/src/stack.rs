//! A search that keeps its frames on a stack and goes back by position.
use crate::backtrack::{lemma_released, released};
use crate::data::{Meta, MetaId};
use crate::es::variables;
use crate::frames::{candidate_views, candidates, lemma_grown_sane, sane, tried};
use crate::ids::{Fault, Ids};
use crate::memory::{Heap, Store};
use crate::search::{Candidate, CandidateView};
use vstd::prelude::*;

verus! {

/// A component, with the metavariables before and after the next one.
pub struct StackComponent {
    pub beginning: Vec<MetaId>,
    pub next: MetaId,
    pub end: Vec<MetaId>,
    /// The number of frames up to and with the one that this component comes from.
    pub parent: usize,
}

/// A frame of the stack.
pub struct StackFrame {
    /// The candidates, the next one to try at the end.
    pub domain: Vec<Candidate>,
    pub component: StackComponent,
}

/// The view of a `StackFrame`.
#[verifier::ext_equal]
pub struct StackFrameView {
    pub domain: Seq<CandidateView>,
    pub beginning: Seq<MetaId>,
    pub next: MetaId,
    pub end: Seq<MetaId>,
    pub parent: usize,
}

impl StackFrame {
    pub open spec fn view(&self) -> StackFrameView {
        StackFrameView {
            domain: candidate_views(self.domain@),
            beginning: self.component.beginning@,
            next: self.component.next,
            end: self.component.end@,
            parent: self.component.parent,
        }
    }
}

/// The views of frames.
pub open spec fn stack_views(v: Seq<StackFrame>) -> Seq<StackFrameView> {
    v.map_values(|f: StackFrame| f.view())
}

/// A search with a stack of frames.
pub struct StackProver {
    pub meta: MetaId,
    pub frames: Vec<StackFrame>,
    /// The components that are yet to be assigned.
    pub components: Vec<StackComponent>,
}

/// Copies a part of `v`.
fn slice(v: &Vec<MetaId>, from: usize, to: usize) -> (r: Vec<MetaId>)
    requires
        from <= to <= v@.len(),
    ensures
        r@ == v@.subrange(from as int, to as int),
{
    let mut r: Vec<MetaId> = Vec::new();
    let mut i: usize = from;
    while i < to
        invariant
            from <= i <= to <= v@.len(),
            r@ == v@.subrange(from as int, i as int),
        decreases to - i,
    {
        r.push(v[i]);
        i = i + 1;
        assert(v@.subrange(from as int, i as int) =~= v@.subrange(from as int, i - 1).push(
            v@[i - 1],
        ));
    }
    r
}

impl StackComponent {
    /// The component of the given metavariables, with the one at `index` next.
    pub fn new(metas: &Vec<MetaId>, index: usize, parent: usize) -> (r: StackComponent)
        requires
            index < metas@.len(),
        ensures
            r.beginning@ == metas@.take(index as int),
            r.next == metas@[index as int],
            r.end@ == metas@.skip(index + 1),
            r.parent == parent,
            r.beginning@ + seq![r.next] + r.end@ == metas@,
    {
        let n: usize = metas.len();
        let r = StackComponent {
            beginning: slice(metas, 0, index),
            next: metas[index],
            end: slice(metas, index + 1, n),
            parent,
        };
        assert(r.beginning@ =~= metas@.take(index as int));
        assert(r.end@ =~= metas@.skip(index + 1));
        assert(r.beginning@ + seq![r.next] + r.end@ =~= metas@);
        r
    }
}

/// Whether the stack is in order: each frame comes from an earlier one.
pub open spec fn stacked(h: Heap, frames: Seq<StackFrameView>) -> bool {
    &&& sane(h)
    &&& forall|k: int|
        0 <= k < frames.len() ==> (#[trigger] frames[k]).next < h.metas.len() && frames[k].parent
            <= k
}

/// The heap after the frames from `index` on have been taken off the stack, the last one first.
pub open spec fn unwound(h: Heap, frames: Seq<StackFrameView>, index: nat) -> Heap
    decreases frames.len(),
{
    if frames.len() <= index {
        h
    } else {
        unwound(released(h, frames.last().next), frames.drop_last(), index)
    }
}

/// The first `index` of the frames, or all of them.
pub open spec fn kept(frames: Seq<StackFrameView>, index: nat) -> Seq<StackFrameView> {
    if index < frames.len() {
        frames.take(index as int)
    } else {
        frames
    }
}

proof fn lemma_unwound(h: Heap, frames: Seq<StackFrameView>, index: nat)
    requires
        stacked(h, frames),
    ensures
        stacked(unwound(h, frames, index), kept(frames, index)),
    decreases frames.len(),
{
    if frames.len() > index {
        lemma_released(h, frames.last().next);
        assert(stacked(released(h, frames.last().next), frames.drop_last()));
        lemma_unwound(released(h, frames.last().next), frames.drop_last(), index);
        assert(kept(frames.drop_last(), index) =~= kept(frames, index));
    }
}

/// Goes back to the frame at the top of the first `index`, or to the one that it comes from, and
/// so on, until there is one with a candidate left. The frame is unassigned, and its candidate is
/// taken.
pub open spec fn resumed(h: Heap, frames: Seq<StackFrameView>, index: nat) -> (
    Heap,
    Seq<StackFrameView>,
    Option<CandidateView>,
)
    decreases index,
{
    let h1 = unwound(h, frames, index);
    let fs = kept(frames, index);
    if index == 0 || index > fs.len() {
        (h1, fs, None)
    } else {
        let f = fs[index - 1];
        if f.domain.len() > 0 {
            (
                released(h1, f.next),
                fs.update(index - 1, StackFrameView { domain: f.domain.drop_last(), ..f }),
                Some(f.domain.last()),
            )
        } else if f.parent < index {
            resumed(h1, fs, f.parent as nat)
        } else {
            (h1, fs, None)
        }
    }
}

/// The frame for the component, with every possible assignment to try. Also gives the next
/// identifier.
pub open spec fn opened(h: Heap, c: StackComponent, fuel: nat, next: u64) -> Result<
    (StackFrameView, Heap, u64),
    Fault,
> {
    match tried(
        h,
        c.next,
        variables(h.metas[c.next as int].gamma).len() as int,
        fuel,
        next,
    ) {
        Err(f) => Err(f),
        Ok((domain, g, n)) => Ok(
            (
                StackFrameView {
                    domain,
                    beginning: c.beginning@,
                    next: c.next,
                    end: c.end@,
                    parent: c.parent,
                },
                g,
                n,
            ),
        ),
    }
}

impl StackProver {
    /// Takes the frames from `index` on off the stack, the last one first.
    pub fn backtrack(&mut self, store: &mut Store, index: usize)
        requires
            stacked(old(store)@, stack_views(old(self).frames@)),
        ensures
            final(store)@ == unwound(
                old(store)@,
                stack_views(old(self).frames@),
                index as nat,
            ),
            stack_views(final(self).frames@) == kept(
                stack_views(old(self).frames@),
                index as nat,
            ),
            final(self).components == old(self).components,
            final(self).meta == old(self).meta,
            stacked(final(store)@, stack_views(final(self).frames@)),
    {
        let ghost h = store@;
        let ghost fs = stack_views(self.frames@);
        while self.frames.len() > index
            invariant
                stacked(store@, stack_views(self.frames@)),
                unwound(store@, stack_views(self.frames@), index as nat) == unwound(
                    h,
                    fs,
                    index as nat,
                ),
                kept(stack_views(self.frames@), index as nat) == kept(fs, index as nat),
                self.components == old(self).components,
                self.meta == old(self).meta,
            decreases self.frames@.len(),
        {
            let ghost views = stack_views(self.frames@);
            let ghost before = store@;
            match self.frames.pop() {
                None => {},
                Some(frame) => {
                    proof {
                        assert(views.last() == frame@);
                        assert(stack_views(self.frames@) =~= views.drop_last());
                        lemma_released(before, frame@.next);
                        assert(views[views.len() - 1].next < before.metas.len());
                        assert(kept(views.drop_last(), index as nat) =~= kept(
                            views,
                            index as nat,
                        ));
                        assert forall|k: int| 0 <= k < views.drop_last().len() implies (
                        #[trigger] views.drop_last()[k]).next < before.metas.len()
                            && views.drop_last()[k].parent <= k by {
                            assert(views[k].next < before.metas.len());
                        }
                    }
                    Meta::unassign(store, frame.component.next);
                },
            }
        }
    }

    /// Goes back, from the frame at position `index`, to a frame with a candidate left, and takes
    /// that candidate. There is none if the whole search is exhausted.
    pub fn step(&mut self, store: &mut Store, index: usize) -> (r: Option<Candidate>)
        requires
            stacked(old(store)@, stack_views(old(self).frames@)),
        ensures
            ({
                let (h, fs, c) = resumed(
                    old(store)@,
                    stack_views(old(self).frames@),
                    index as nat,
                );
                &&& final(store)@ == h
                &&& stack_views(final(self).frames@) == fs
                &&& match r {
                    Some(x) => c == Some(x@),
                    None => c is None,
                }
            }),
            final(self).components == old(self).components,
            final(self).meta == old(self).meta,
            stacked(final(store)@, stack_views(final(self).frames@)),
        decreases index,
    {
        self.backtrack(store, index);
        if index == 0 || index > self.frames.len() {
            return None;
        }
        let ghost h1 = store@;
        let ghost fs = stack_views(self.frames@);
        let at: usize = index - 1;
        assert(fs[at as int] == self.frames@[at as int]@);
        assert(fs[at as int].next < h1.metas.len() && fs[at as int].parent <= at);
        match self.frames[at].domain.pop() {
            Some(c) => {
                let next: MetaId = self.frames[at].component.next;
                proof {
                    lemma_released(h1, next);
                    assert(self.frames@[at as int]@.domain =~= fs[at as int].domain.drop_last());
                    assert(c@ == fs[at as int].domain.last());
                    assert(stack_views(self.frames@) =~= fs.update(
                        at as int,
                        StackFrameView {
                            domain: fs[at as int].domain.drop_last(),
                            ..fs[at as int]
                        },
                    ));
                    assert forall|k: int| 0 <= k < fs.len() implies (
                    #[trigger] stack_views(self.frames@)[k]).next < h1.metas.len()
                        && stack_views(self.frames@)[k].parent <= k by {
                        assert(fs[k].next < h1.metas.len());
                    }
                }
                Meta::unassign(store, next);
                Some(c)
            },
            None => {
                assert(stack_views(self.frames@) =~= fs);
                let parent: usize = self.frames[at].component.parent;
                self.step(store, parent)
            },
        }
    }

    /// Takes the last component, and puts a frame for it on the stack with every possible
    /// assignment to try. Returns whether there was one: if not, all are assigned.
    pub fn enter(&mut self, store: &mut Store, fuel: usize, ids: &mut Ids) -> (r: Result<
        bool,
        Fault,
    >)
        requires
            stacked(old(store)@, stack_views(old(self).frames@)),
            old(self).components@.len() > 0 ==> {
                &&& old(self).components@.last().next < old(store)@.metas.len()
                &&& old(self).components@.last().parent <= old(self).frames@.len()
            },
        ensures
            old(self).components@.len() == 0 ==> {
                &&& r == Ok::<bool, Fault>(false)
                &&& *final(self) == *old(self)
                &&& final(store)@ == old(store)@
                &&& final(ids).next == old(ids).next
            },
            old(self).components@.len() > 0 ==> match r {
                Ok(entered) => {
                    &&& entered
                    &&& final(self).components@ == old(self).components@.drop_last()
                    &&& opened(
                        old(store)@,
                        old(self).components@.last(),
                        fuel as nat,
                        old(ids).next,
                    ) == Ok::<(StackFrameView, Heap, u64), Fault>(
                        (
                            stack_views(final(self).frames@).last(),
                            final(store)@,
                            final(ids).next,
                        ),
                    )
                    &&& stack_views(final(self).frames@).drop_last() == stack_views(
                        old(self).frames@,
                    )
                },
                Err(f) => opened(
                    old(store)@,
                    old(self).components@.last(),
                    fuel as nat,
                    old(ids).next,
                ) == Err::<(StackFrameView, Heap, u64), Fault>(f),
            },
            final(self).meta == old(self).meta,
            stacked(final(store)@, stack_views(final(self).frames@)),
    {
        let ghost h = store@;
        let ghost fs = stack_views(self.frames@);
        if self.components.len() == 0 {
            return Ok(false);
        }
        let component: StackComponent = self.components.remove(self.components.len() - 1);
        assert(self.components@ =~= old(self).components@.drop_last());
        let m: MetaId = component.next;
        let found = candidates(store, m, fuel, ids);
        proof {
            lemma_grown_sane(h, store@, m);
        }
        match found {
            Err(f) => Err(f),
            Ok(domain) => {
                self.frames.push(StackFrame { domain, component });
                proof {
                    let now = stack_views(self.frames@);
                    assert(now.drop_last() =~= fs);
                    assert forall|k: int| 0 <= k < now.len() implies (#[trigger] now[k]).next
                        < store@.metas.len() && now[k].parent <= k by {
                        if k < fs.len() {
                            assert(now[k] == fs[k]);
                        }
                    }
                }
                Ok(true)
            },
        }
    }

    /// The metavariables that are left when the next one of the frame gets the arguments `args`.
    pub fn unassigned(&self, index: usize, args: &Vec<MetaId>) -> (r: Vec<MetaId>)
        requires
            index < self.frames@.len(),
        ensures
            r@ == self.frames@[index as int]@.beginning + args@ + self.frames@[index as int]@.end,
    {
        let c: &StackComponent = &self.frames[index].component;
        let mut r: Vec<MetaId> = slice(&c.beginning, 0, c.beginning.len());
        let mut middle: Vec<MetaId> = slice(args, 0, args.len());
        let mut last: Vec<MetaId> = slice(&c.end, 0, c.end.len());
        assert(r@ =~= c.beginning@ && middle@ =~= args@ && last@ =~= c.end@);
        r.append(&mut middle);
        r.append(&mut last);
        r
    }
}

} // verus!
