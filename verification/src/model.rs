use vstd::prelude::*;
use crate::text::str_eq;
use crate::oexp::{Oexp, OexpV, Builtin};

verus! {

/// One scope of bindings, in the order in which they were made.
struct Frame {
    entries: Vec<(String, Oexp)>,
}

/// The bindings that evaluation reads and writes: a stack of scopes. The
/// first scope holds the global bindings; calling a function defined in the
/// language opens a scope for its parameters, which is closed when it returns.
/// A name is looked up from the innermost scope outwards, and a definition
/// goes to the innermost scope.
pub struct Model {
    frames: Vec<Frame>,
}

/// The map that binding the pairs `kvs` one after the other makes, a later
/// binding of a name replacing an earlier one.
pub open spec fn bindings_map(kvs: Seq<(Seq<char>, OexpV)>) -> Map<Seq<char>, OexpV>
    decreases kvs.len(),
{
    if kvs.len() == 0 {
        Map::empty()
    } else {
        bindings_map(kvs.drop_last()).insert(kvs.last().0, kvs.last().1)
    }
}

/// The value bound to `k` in the innermost of the scopes `frames` that binds it.
pub open spec fn spec_lookup(frames: Seq<Map<Seq<char>, OexpV>>, k: Seq<char>) -> Option<OexpV>
    decreases frames.len(),
{
    if frames.len() == 0 {
        None
    } else if frames.last().contains_key(k) {
        Some(frames.last()[k])
    } else {
        spec_lookup(frames.drop_last(), k)
    }
}

/// `frames` with `k` bound to `v` in the innermost scope.
pub open spec fn spec_define(frames: Seq<Map<Seq<char>, OexpV>>, k: Seq<char>, v: OexpV) -> Seq<
    Map<Seq<char>, OexpV>,
> {
    frames.update(frames.len() - 1, frames.last().insert(k, v))
}

/// The scopes of the core model: one scope, binding `+` and `*`.
pub open spec fn core_frames() -> Seq<Map<Seq<char>, OexpV>> {
    seq![
        Map::<Seq<char>, OexpV>::empty().insert("+"@, OexpV::Function(Builtin::Add)).insert(
            "*"@,
            OexpV::Function(Builtin::Mul),
        ),
    ]
}

pub open spec fn entry_views(v: Seq<(String, Oexp)>) -> Seq<(Seq<char>, OexpV)> {
    v.map_values(|e: (String, Oexp)| (e.0@, e.1@))
}

spec fn frame_view(f: Frame) -> Map<Seq<char>, OexpV> {
    bindings_map(entry_views(f.entries@))
}

impl Model {
    pub closed spec fn view(&self) -> Seq<Map<Seq<char>, OexpV>> {
        self.frames@.map_values(|f: Frame| frame_view(f))
    }

    #[verifier::type_invariant]
    spec fn has_scope(&self) -> bool {
        self.frames@.len() >= 1
    }

    /// There is always an innermost scope.
    pub(crate) fn note_has_scope(&self)
        ensures
            self@.len() >= 1,
    {
        proof { use_type_invariant(self); }
    }
}

/// Binding names outside the pairs `kvs[j..]` is not changed by those pairs.
proof fn lemma_bindings_prefix(kvs: Seq<(Seq<char>, OexpV)>, j: int, k: Seq<char>)
    requires
        0 <= j <= kvs.len(),
        forall|i: int| j <= i < kvs.len() ==> (#[trigger] kvs[i]).0 != k,
    ensures
        bindings_map(kvs).contains_key(k) == bindings_map(kvs.take(j)).contains_key(k),
        bindings_map(kvs).contains_key(k) ==> bindings_map(kvs)[k] == bindings_map(
            kvs.take(j),
        )[k],
    decreases kvs.len(),
{
    if kvs.len() == j {
        assert(kvs.take(j) == kvs);
    } else {
        assert(kvs[kvs.len() - 1].0 != k);
        lemma_bindings_prefix(kvs.drop_last(), j, k);
        assert(kvs.drop_last().take(j) == kvs.take(j));
    }
}

/// The value bound to `k` in one scope.
fn frame_get(entries: &Vec<(String, Oexp)>, k: &String) -> (r: Option<Oexp>)
    ensures
        match r {
            Some(v) => bindings_map(entry_views(entries@)).contains_key(k@) && v@ == bindings_map(
                entry_views(entries@),
            )[k@],
            None => !bindings_map(entry_views(entries@)).contains_key(k@),
        },
{
    let ghost kvs = entry_views(entries@);
    let mut i = entries.len();
    while i > 0
        invariant
            i <= entries@.len(),
            kvs == entry_views(entries@),
            forall|j: int| i <= j < kvs.len() ==> (#[trigger] kvs[j]).0 != k@,
        decreases i,
    {
        let e = &entries[i - 1];
        if str_eq(e.0.as_str(), k.as_str()) {
            proof {
                lemma_bindings_prefix(kvs, i as int, k@);
                assert(kvs.take(i as int).drop_last() == kvs.take(i - 1));
                assert(kvs.take(i as int).last() == kvs[i - 1]);
            }
            return Some(e.1.copy());
        }
        i = i - 1;
    }
    proof {
        lemma_bindings_prefix(kvs, 0, k@);
        assert(kvs.take(0).len() == 0);
    }
    None
}

/// The core model: the global scope binds `+` and `*` to the native sum and
/// product.
pub fn new_core_model() -> (m: Model)
    ensures
        m@ == core_frames(),
{
    let mut entries: Vec<(String, Oexp)> = Vec::new();
    entries.push((String::from_str("+"), Oexp::Function(Builtin::Add)));
    entries.push((String::from_str("*"), Oexp::Function(Builtin::Mul)));
    let ghost kvs = entry_views(entries@);
    assert(kvs[0] == ("+"@, OexpV::Function(Builtin::Add)));
    assert(kvs[1] == ("*"@, OexpV::Function(Builtin::Mul)));
    assert(kvs.drop_last().drop_last().len() == 0);
    assert(kvs.drop_last().last() == kvs[0]);
    assert(bindings_map(kvs.drop_last().drop_last()) == Map::<Seq<char>, OexpV>::empty());
    assert(bindings_map(kvs.drop_last()) == Map::<Seq<char>, OexpV>::empty().insert(
        "+"@,
        OexpV::Function(Builtin::Add),
    ));
    assert(bindings_map(kvs) == Map::<Seq<char>, OexpV>::empty().insert(
        "+"@,
        OexpV::Function(Builtin::Add),
    ).insert("*"@, OexpV::Function(Builtin::Mul)));
    let mut frames: Vec<Frame> = Vec::new();
    frames.push(Frame { entries });
    let m = Model { frames };
    assert(m@ =~= core_frames());
    m
}

impl Model {
    /// The value bound to `k`, looked up from the innermost scope outwards.
    pub(crate) fn search(&self, k: &String) -> (r: Option<Oexp>)
        ensures
            match r {
                Some(v) => spec_lookup(self@, k@) == Some(v@),
                None => spec_lookup(self@, k@) is None,
            },
    {
        let ghost fs = self@;
        let mut i = self.frames.len();
        assert(fs.take(i as int) == fs);
        while i > 0
            invariant
                i <= self.frames@.len(),
                fs == self@,
                spec_lookup(fs, k@) == spec_lookup(fs.take(i as int), k@),
            decreases i,
        {
            let ghost pre = fs.take(i as int);
            assert(pre.last() == frame_view(self.frames@[i - 1]));
            assert(pre.drop_last() == fs.take(i - 1));
            match frame_get(&self.frames[i - 1].entries, k) {
                Some(v) => {
                    return Some(v);
                },
                None => {},
            }
            i = i - 1;
        }
        None
    }

    /// Binds `k` to `v` in the innermost scope.
    pub(crate) fn define(&mut self, k: String, v: Oexp)
        ensures
            final(self)@ == spec_define(old(self)@, k@, v@),
    {
        proof { use_type_invariant(&*self); }
        let mut frames: Vec<Frame> = vec![Frame { entries: Vec::new() }];
        std::mem::swap(&mut frames, &mut self.frames);
        let mut top = frames.pop().unwrap();
        let ghost before = entry_views(top.entries@);
        top.entries.push((k, v));
        assert(entry_views(top.entries@).drop_last() == before);
        frames.push(top);
        self.frames = frames;
        assert(self@ =~= spec_define(old(self)@, k@, v@));
    }

    /// Opens a scope holding the bindings `kvs`, made in order.
    pub(crate) fn enter(&mut self, kvs: Vec<(String, Oexp)>)
        ensures
            final(self)@ == old(self)@.push(bindings_map(entry_views(kvs@))),
    {
        let mut frames: Vec<Frame> = vec![Frame { entries: Vec::new() }];
        std::mem::swap(&mut frames, &mut self.frames);
        frames.push(Frame { entries: kvs });
        self.frames = frames;
        assert(self@ =~= old(self)@.push(bindings_map(entry_views(kvs@))));
    }

    /// Closes the innermost scope.
    pub(crate) fn leave(&mut self)
        requires
            old(self)@.len() >= 2,
        ensures
            final(self)@ == old(self)@.drop_last(),
    {
        let mut frames: Vec<Frame> = vec![Frame { entries: Vec::new() }];
        std::mem::swap(&mut frames, &mut self.frames);
        let _ = frames.pop();
        self.frames = frames;
        assert(self@ =~= old(self)@.drop_last());
    }
}


fn copy_entries(v: &Vec<(String, Oexp)>) -> (r: Vec<(String, Oexp)>)
    ensures
        entry_views(r@) == entry_views(v@),
{
    let mut r: Vec<(String, Oexp)> = Vec::new();
    let mut i: usize = 0;
    while i < v.len()
        invariant
            i <= v.len(),
            r@.len() == i,
            forall|j: int| 0 <= j < i ==> #[trigger] entry_views(r@)[j] == entry_views(v@)[j],
        decreases v.len() - i,
    {
        let e = &v[i];
        let ghost before = r@;
        let k = e.0.clone();
        let x = e.1.copy();
        r.push((k, x));
        assert(r@[i as int] == (k, x));
        assert(entry_views(r@)[i as int] == (k@, x@));
        assert forall|j: int| 0 <= j < i + 1 implies #[trigger] entry_views(r@)[j] == entry_views(
            v@,
        )[j] by {
            if j < i {
                assert(r@[j] == before[j]);
                assert(entry_views(before)[j] == entry_views(v@)[j]);
            }
        }
        i = i + 1;
    }
    assert(entry_views(r@) =~= entry_views(v@));
    r
}

impl Clone for Model {
    fn clone(&self) -> (r: Model)
        ensures
            r@ == self@,
    {
        proof { use_type_invariant(self); }
        let mut frames: Vec<Frame> = Vec::new();
        let mut i: usize = 0;
        while i < self.frames.len()
            invariant
                i <= self.frames@.len(),
                frames@.len() == i,
                forall|j: int| 0 <= j < i ==> #[trigger] frame_view(frames@[j]) == frame_view(
                    self.frames@[j],
                ),
            decreases self.frames@.len() - i,
        {
            let ghost before = frames@;
            frames.push(Frame { entries: copy_entries(&self.frames[i].entries) });
            assert forall|j: int| 0 <= j < i + 1 implies #[trigger] frame_view(frames@[j])
                == frame_view(self.frames@[j]) by {
                if j < i {
                    assert(frames@[j] == before[j]);
                    assert(frame_view(before[j]) == frame_view(self.frames@[j]));
                }
            }
            i = i + 1;
        }
        let r = Model { frames };
        assert(r@ =~= self@);
        r
    }
}

}
