//! Tables of named values, and stacks of them.

use crate::text::same;
use vstd::prelude::*;

verus! {

/// A table that holds at most one value under each name.
pub struct Names<T: DeepView> {
    entries: Vec<(String, T)>,
}

/// The place of `name` among the entries.
spec fn is_place<T>(entries: Seq<(String, T)>, name: Seq<char>, i: int) -> bool {
    0 <= i < entries.len() && entries[i].0@ == name
}

spec fn has_place<T>(entries: Seq<(String, T)>, name: Seq<char>) -> bool {
    exists|i: int| is_place(entries, name, i)
}

impl<T: DeepView> View for Names<T> {
    type V = Map<Seq<char>, T::V>;

    closed spec fn view(&self) -> Map<Seq<char>, T::V> {
        Map::new(
            |name: Seq<char>| has_place(self.entries@, name),
            |name: Seq<char>|
                self.entries@[choose|i: int| is_place(self.entries@, name, i)].1.deep_view(),
        )
    }
}

impl<T: DeepView> Names<T> {
    /// No name occurs twice.
    #[verifier::type_invariant]
    spec fn distinct(self) -> bool {
        forall|i: int, j: int|
            0 <= i < j < self.entries@.len() ==> #[trigger] self.entries@[i].0@
                != #[trigger] self.entries@[j].0@
    }

    /// An empty table.
    pub fn new() -> (r: Self)
        ensures
            r@ == Map::<Seq<char>, T::V>::empty(),
    {
        let r = Names { entries: Vec::new() };
        assert(r@ =~= Map::<Seq<char>, T::V>::empty());
        r
    }

    fn position(&self, name: &str) -> (r: Option<usize>)
        ensures
            match r {
                Some(i) => i < self.entries@.len() && self.entries@[i as int].0@ == name@
                    && self@.contains_key(name@) && self@[name@] == self.entries@[i as int].1.deep_view(),
                None => !self@.contains_key(name@) && forall|j: int|
                    0 <= j < self.entries@.len() ==> self.entries@[j].0@ != name@,
            },
    {
        proof {
            use_type_invariant(self);
        }
        let mut i: usize = 0;
        while i < self.entries.len()
            invariant
                i <= self.entries@.len(),
                self.distinct(),
                forall|j: int| 0 <= j < i ==> self.entries@[j].0@ != name@,
            decreases self.entries@.len() - i,
        {
            if same(self.entries[i].0.as_str(), name) {
                proof {
                    assert(is_place(self.entries@, name@, i as int));
                    let k = choose|k: int| is_place(self.entries@, name@, k);
                    assert(is_place(self.entries@, name@, k));
                    assert(k == i);
                }
                return Some(i);
            }
            i = i + 1;
        }
        None
    }

    /// The value under `name`.
    pub fn get(&self, name: &str) -> (r: Option<&T>)
        ensures
            match r {
                Some(v) => self@.contains_key(name@) && v.deep_view() == self@[name@],
                None => !self@.contains_key(name@),
            },
    {
        match self.position(name) {
            Some(i) => Some(&self.entries[i].1),
            None => None,
        }
    }

    /// Puts `value` under `name` and gives back the value that was there.
    pub fn insert(&mut self, name: String, value: T) -> (r: Option<T>)
        ensures
            final(self)@ == old(self)@.insert(name@, value.deep_view()),
            match r {
                Some(v) => old(self)@.contains_key(name@) && v.deep_view() == old(self)@[name@],
                None => !old(self)@.contains_key(name@),
            },
    {
        let ghost before = self.entries@;
        let ghost was = self@;
        proof {
            use_type_invariant(&*self);
        }
        match self.position(name.as_str()) {
            Some(i) => {
                let mut entries: Vec<(String, T)> = Vec::new();
                core::mem::swap(&mut entries, &mut self.entries);
                let mut slot = (name, value);
                let ghost key = name@;
                core::mem::swap(&mut entries[i], &mut slot);
                let ghost now = entries@;
                proof {
                    assert(now == before.update(i as int, (name, value)));
                    assert forall|a: int, b: int| 0 <= a < b < now.len() implies now[a].0@
                        != now[b].0@ by {
                        assert(before[a].0@ != before[b].0@);
                    }
                }
                self.entries = entries;
                proof {
                    lemma_names_view(self.entries@);
                    lemma_names_view(before);
                    assert forall|k: Seq<char>| self@.contains_key(k) == was.insert(key, value.deep_view()).contains_key(k) by {
                        if has_place(now, k) {
                            let p = choose|p: int| is_place(now, k, p);
                            assert(is_place(before, k, p));
                        }
                        if has_place(before, k) {
                            let p = choose|p: int| is_place(before, k, p);
                            assert(is_place(now, k, p));
                        }
                        if k == key {
                            assert(is_place(now, k, i as int));
                        }
                    }
                    assert forall|k: Seq<char>| self@.contains_key(k) implies self@[k]
                        == was.insert(key, value.deep_view())[k] by {
                        let p = choose|p: int| is_place(now, k, p);
                        assert(is_place(now, k, p));
                        if k == key {
                            assert(is_place(now, k, i as int));
                            assert(p == i);
                        } else {
                            assert(is_place(before, k, p));
                        }
                    }
                    assert(self@ =~= was.insert(key, value.deep_view()));
                }
                Some(slot.1)
            },
            None => {
                let mut entries: Vec<(String, T)> = Vec::new();
                core::mem::swap(&mut entries, &mut self.entries);
                let ghost key = name@;
                entries.push((name, value));
                let ghost now = entries@;
                proof {
                    assert forall|a: int, b: int| 0 <= a < b < now.len() implies now[a].0@
                        != now[b].0@ by {
                        if b < before.len() {
                            assert(before[a].0@ != before[b].0@);
                        }
                    }
                }
                self.entries = entries;
                proof {
                    lemma_names_view(self.entries@);
                    lemma_names_view(before);
                    assert forall|k: Seq<char>| self@.contains_key(k) == was.insert(key, value.deep_view()).contains_key(k) by {
                        if has_place(now, k) {
                            let p = choose|p: int| is_place(now, k, p);
                            if p < before.len() {
                                assert(is_place(before, k, p));
                            }
                        }
                        if has_place(before, k) {
                            let p = choose|p: int| is_place(before, k, p);
                            assert(is_place(now, k, p));
                        }
                        if k == key {
                            assert(is_place(now, k, before.len() as int));
                        }
                    }
                    assert forall|k: Seq<char>| self@.contains_key(k) implies self@[k]
                        == was.insert(key, value.deep_view())[k] by {
                        let p = choose|p: int| is_place(now, k, p);
                        assert(is_place(now, k, p));
                        if p < before.len() {
                            assert(is_place(before, k, p));
                        }
                    }
                    assert(self@ =~= was.insert(key, value.deep_view()));
                }
                None
            },
        }
    }

    /// The names that the table holds, each once.
    pub fn names(&self) -> (r: Vec<String>)
        ensures
            forall|x: Seq<char>| #[trigger]
                crate::text::texts(r@).contains(x) <==> self@.contains_key(x),
    {
        let mut out: Vec<String> = Vec::new();
        let mut i: usize = 0;
        while i < self.entries.len()
            invariant
                i <= self.entries@.len(),
                out@.len() == i,
                forall|k: int| 0 <= k < i ==> out@[k]@ == (#[trigger] self.entries@[k]).0@,
            decreases self.entries@.len() - i,
        {
            out.push(self.entries[i].0.clone());
            i = i + 1;
        }
        proof {
            let got = crate::text::texts(out@);
            assert forall|x: Seq<char>| #[trigger] got.contains(x) <==> self@.contains_key(x) by {
                if got.contains(x) {
                    let k = choose|k: int| 0 <= k < got.len() && got[k] == x;
                    assert(out@[k]@ == self.entries@[k].0@);
                    assert(is_place(self.entries@, x, k));
                }
                if has_place(self.entries@, x) {
                    let k = choose|k: int| is_place(self.entries@, x, k);
                    assert(out@[k]@ == self.entries@[k].0@);
                    assert(got[k] == x);
                }
            }
        }
        out
    }

    /// Takes the value under `name` out of the table.
    pub fn remove(&mut self, name: &str) -> (r: Option<T>)
        ensures
            final(self)@ == old(self)@.remove(name@),
            match r {
                Some(v) => old(self)@.contains_key(name@) && v.deep_view() == old(self)@[name@],
                None => !old(self)@.contains_key(name@),
            },
    {
        let ghost before = self.entries@;
        let ghost was = self@;
        proof {
            use_type_invariant(&*self);
        }
        match self.position(name) {
            None => {
                assert(self@ =~= was.remove(name@));
                None
            },
            Some(i) => {
                let mut entries: Vec<(String, T)> = Vec::new();
                core::mem::swap(&mut entries, &mut self.entries);
                let gone = entries.remove(i);
                let ghost now = entries@;
                proof {
                    assert forall|a: int, b: int| 0 <= a < b < now.len() implies now[a].0@
                        != now[b].0@ by {
                        let a2 = if a < i {
                            a
                        } else {
                            a + 1
                        };
                        let b2 = if b < i {
                            b
                        } else {
                            b + 1
                        };
                        assert(now[a] == before[a2]);
                        assert(now[b] == before[b2]);
                        assert(before[a2].0@ != before[b2].0@);
                    }
                }
                self.entries = entries;
                proof {
                    lemma_names_view(now);
                    lemma_names_view(before);
                    assert forall|k: Seq<char>| self@.contains_key(k) == was.remove(
                        name@,
                    ).contains_key(k) by {
                        if has_place(now, k) {
                            let p = choose|p: int| is_place(now, k, p);
                            let q = if p < i {
                                p
                            } else {
                                p + 1
                            };
                            assert(now[p] == before[q]);
                            assert(is_place(before, k, q));
                            assert(before[q].0@ != before[i as int].0@);
                        }
                        if has_place(before, k) && k != name@ {
                            let p = choose|p: int| is_place(before, k, p);
                            let q = if p < i {
                                p
                            } else {
                                p - 1
                            };
                            assert(now[q] == before[p]);
                            assert(is_place(now, k, q));
                        }
                    }
                    assert forall|k: Seq<char>| self@.contains_key(k) implies self@[k]
                        == was.remove(name@)[k] by {
                        let p = choose|p: int| is_place(now, k, p);
                        assert(is_place(now, k, p));
                        let q = if p < i {
                            p
                        } else {
                            p + 1
                        };
                        assert(now[p] == before[q]);
                        assert(is_place(before, k, q));
                    }
                    assert(self@ =~= was.remove(name@));
                }
                Some(gone.1)
            },
        }
    }
}

/// What the table holds under a name is the value at that name's place.
proof fn lemma_names_view<T>(entries: Seq<(String, T)>)
    requires
        forall|i: int, j: int|
            0 <= i < j < entries.len() ==> #[trigger] entries[i].0@ != #[trigger] entries[j].0@,
    ensures
        forall|k: Seq<char>, p: int| #[trigger]
            is_place(entries, k, p) ==> has_place(entries, k) && p == choose|i: int|
                is_place(entries, k, i),
{
    assert forall|k: Seq<char>, p: int| #[trigger] is_place(entries, k, p) implies has_place(
        entries,
        k,
    ) && p == choose|i: int| is_place(entries, k, i) by {
        let q = choose|i: int| is_place(entries, k, i);
        assert(is_place(entries, k, q));
    }
}

/// The frame that owns `name` among the first `n`: the innermost one that
/// holds it.
pub open spec fn owner<T>(frames: Seq<Map<Seq<char>, T>>, name: Seq<char>, n: int) -> Option<int>
    decreases n,
{
    if n <= 0 {
        None
    } else if frames[n - 1].contains_key(name) {
        Some(n - 1)
    } else {
        owner(frames, name, n - 1)
    }
}

/// The value that `name` has: that of the innermost frame that holds it.
pub open spec fn visible<T>(frames: Seq<Map<Seq<char>, T>>, name: Seq<char>) -> Option<T> {
    match owner(frames, name, frames.len() as int) {
        Some(i) => Some(frames[i][name]),
        None => None,
    }
}

/// The frames after an assignment: the frame that owns the name keeps it, and
/// a new name goes to the innermost frame.
pub open spec fn assigned<T>(
    frames: Seq<Map<Seq<char>, T>>,
    name: Seq<char>,
    value: T,
) -> Seq<Map<Seq<char>, T>> {
    match owner(frames, name, frames.len() as int) {
        Some(i) => frames.update(i, frames[i].insert(name, value)),
        None => shadowed(frames, name, value),
    }
}

/// The frames after a definition in the innermost frame.
pub open spec fn shadowed<T>(
    frames: Seq<Map<Seq<char>, T>>,
    name: Seq<char>,
    value: T,
) -> Seq<Map<Seq<char>, T>> {
    frames.update(frames.len() - 1, frames.last().insert(name, value))
}

/// The frames after the name was taken from the frame that owns it.
pub open spec fn dropped<T>(
    frames: Seq<Map<Seq<char>, T>>,
    name: Seq<char>,
) -> Seq<Map<Seq<char>, T>> {
    match owner(frames, name, frames.len() as int) {
        Some(i) => frames.update(i, frames[i].remove(name)),
        None => frames,
    }
}

/// What the frames of a list hold.
pub open spec fn frame_views<T: DeepView>(frames: Seq<Names<T>>) -> Seq<Map<Seq<char>, T::V>> {
    Seq::new(frames.len(), |i: int| frames[i]@)
}

/// A stack of scopes. The first frame is the global one and is never taken
/// away; a block pushes a frame when it starts and pops it when it ends.
pub struct Scopes<T: DeepView> {
    frames: Vec<Names<T>>,
}

impl<T: DeepView> View for Scopes<T> {
    type V = Seq<Map<Seq<char>, T::V>>;

    closed spec fn view(&self) -> Seq<Map<Seq<char>, T::V>> {
        frame_views(self.frames@)
    }
}

/// A value of which another can be made that is the same.
pub trait Duplicate: DeepView + Sized {
    /// Another value that is the same.
    fn duplicate(&self) -> (r: Self)
        ensures
            r.deep_view() == self.deep_view(),
    ;
}

impl Duplicate for String {
    fn duplicate(&self) -> (r: String) {
        self.clone()
    }
}

impl Duplicate for Vec<String> {
    fn duplicate(&self) -> (r: Vec<String>) {
        let r = crate::text::copy_texts(self);
        proof {
            let a = crate::text::texts(r@);
            let b = crate::text::texts(self@);
            assert(a.len() == r@.len() && b.len() == self@.len());
            assert forall|i: int| 0 <= i < a.len() implies r.deep_view()[i]
                == self.deep_view()[i] by {
                assert(a[i] == b[i]);
            }
            assert(r.deep_view() =~= self.deep_view());
        }
        r
    }
}

impl<T: Duplicate> Names<T> {
    /// Another table that holds the same.
    pub fn copy(&self) -> (r: Self)
        ensures
            r@ == self@,
    {
        proof {
            use_type_invariant(self);
        }
        let mut entries: Vec<(String, T)> = Vec::new();
        let mut i: usize = 0;
        while i < self.entries.len()
            invariant
                i <= self.entries@.len(),
                entries@.len() == i,
                forall|k: int|
                    0 <= k < i ==> (#[trigger] entries@[k]).0@ == self.entries@[k].0@
                        && entries@[k].1.deep_view() == self.entries@[k].1.deep_view(),
            decreases self.entries@.len() - i,
        {
            entries.push((self.entries[i].0.clone(), self.entries[i].1.duplicate()));
            i = i + 1;
        }
        proof {
            assert forall|i: int, j: int| 0 <= i < j < entries@.len() implies #[trigger]
                entries@[i].0@ != #[trigger] entries@[j].0@ by {
                assert(self.entries@[i].0@ != self.entries@[j].0@);
            }
        }
        let r = Names { entries };
        proof {
            assert forall|name: Seq<char>| r@.contains_key(name) == self@.contains_key(name) by {
                if has_place(r.entries@, name) {
                    let k = choose|k: int| is_place(r.entries@, name, k);
                    assert(is_place(self.entries@, name, k));
                }
                if has_place(self.entries@, name) {
                    let k = choose|k: int| is_place(self.entries@, name, k);
                    assert(r.entries@[k].0@ == name);
                    assert(is_place(r.entries@, name, k));
                }
            }
            assert forall|name: Seq<char>| r@.contains_key(name) implies #[trigger] r@[name]
                == self@[name] by {
                let k = choose|k: int| is_place(r.entries@, name, k);
                let m = choose|m: int| is_place(self.entries@, name, m);
                assert(self.entries@[k].0@ == name);
                assert(r.entries@[m].0@ == name);
                assert(k == m);
            }
            assert(r@ =~= self@);
        }
        r
    }
}

impl<T: Duplicate> Scopes<T> {
    /// Another stack that holds the same.
    pub fn copy(&self) -> (r: Self)
        ensures
            r@ == self@,
    {
        proof {
            use_type_invariant(self);
        }
        let mut frames: Vec<Names<T>> = Vec::new();
        let mut i: usize = 0;
        while i < self.frames.len()
            invariant
                i <= self.frames@.len(),
                frames@.len() == i,
                forall|k: int| 0 <= k < i ==> (#[trigger] frames@[k])@ == self.frames@[k]@,
            decreases self.frames@.len() - i,
        {
            frames.push(self.frames[i].copy());
            i = i + 1;
        }
        let r = Scopes { frames };
        assert(r@ =~= self@);
        r
    }
}

impl<T: DeepView> Scopes<T> {
    /// There is always a frame: the global one.
    #[verifier::type_invariant]
    pub open spec fn has_global(self) -> bool {
        self@.len() >= 1
    }

    /// Only the global frame, empty.
    pub fn new() -> (r: Self)
        ensures
            r@ == seq![Map::<Seq<char>, T::V>::empty()],
    {
        let mut frames: Vec<Names<T>> = Vec::new();
        frames.push(Names::new());
        let r = Scopes { frames };
        assert(r@ =~= seq![Map::<Seq<char>, T::V>::empty()]);
        r
    }

    /// The number of frames, which is never zero.
    pub fn depth(&self) -> (r: usize)
        ensures
            r == self@.len(),
            r >= 1,
    {
        proof {
            use_type_invariant(self);
        }
        self.frames.len()
    }

    fn owner_of(&self, name: &str) -> (r: Option<usize>)
        ensures
            match r {
                Some(i) => owner(self@, name@, self@.len() as int) == Some(i as int) && i
                    < self.frames@.len() && self@[i as int].contains_key(name@),
                None => owner(self@, name@, self@.len() as int) is None,
            },
    {
        let mut n: usize = self.frames.len();
        while n > 0
            invariant
                n <= self.frames@.len(),
                owner(self@, name@, self@.len() as int) == owner(self@, name@, n as int),
            decreases n,
        {
            assert(self@[n - 1] == self.frames@[n - 1]@);
            if self.frames[n - 1].get(name).is_some() {
                return Some(n - 1);
            }
            n = n - 1;
        }
        None
    }

    /// The value of `name`, searched from the innermost frame outwards.
    pub fn get(&self, name: &str) -> (r: Option<&T>)
        ensures
            match r {
                Some(v) => visible(self@, name@) == Some(v.deep_view()),
                None => visible(self@, name@) is None,
            },
    {
        match self.owner_of(name) {
            Some(i) => self.frames[i].get(name),
            None => None,
        }
    }

    /// Assigns `name`: in the frame that owns it, or else as a new name of the
    /// innermost frame. Gives back the value it had.
    pub fn set(&mut self, name: String, value: T) -> (r: Option<T>)
        ensures
            final(self)@ == assigned(old(self)@, name@, value.deep_view()),
            final(self)@.len() == old(self)@.len(),
            visible(final(self)@, name@) == Some(value.deep_view()),
            visible(old(self)@, name@) == match r {
                Some(v) => Some(v.deep_view()),
                None => None,
            },
    {
        proof {
            use_type_invariant(&*self);
        }
        let ghost before = self@;
        let i: usize = match self.owner_of(name.as_str()) {
            Some(i) => i,
            None => {
                proof {
                    lemma_owner(before, name@, before.len() as int);
                }
                self.frames.len() - 1
            },
        };
        proof {
            lemma_owner(before, name@, before.len() as int);
        }
        let mut frames: Vec<Names<T>> = Vec::new();
        frames.push(Names::new());
        core::mem::swap(&mut frames, &mut self.frames);
        let ghost inner = frames@;
        let r = frames[i].insert(name, value);
        assert(frame_views(frames@) =~= before.update(i as int, before[i as int].insert(name@, value.deep_view())));
        self.frames = frames;
        assert(self@ =~= assigned(before, name@, value.deep_view()));
        proof {
            assert(name@.push('x').len() != name@.len());
            law_assignment_is_read_back(before, name@, value.deep_view(), name@.push('x'));
        }
        r
    }

    /// Defines `name` in the innermost frame, hiding an outer one of the same
    /// name.
    pub fn define_local(&mut self, name: String, value: T)
        ensures
            final(self)@ == shadowed(old(self)@, name@, value.deep_view()),
    {
        proof {
            use_type_invariant(&*self);
        }
        let ghost before = self@;
        let i: usize = self.frames.len() - 1;
        let mut frames: Vec<Names<T>> = Vec::new();
        frames.push(Names::new());
        core::mem::swap(&mut frames, &mut self.frames);
        frames[i].insert(name, value);
        assert(frame_views(frames@) =~= before.update(i as int, before[i as int].insert(name@, value.deep_view())));
        self.frames = frames;
        assert(self@ =~= shadowed(before, name@, value.deep_view()));
    }

    /// Starts a scope.
    pub fn push(&mut self)
        ensures
            final(self)@ == old(self)@.push(Map::empty()),
    {
        proof {
            use_type_invariant(&*self);
        }
        let ghost before = self@;
        let mut frames: Vec<Names<T>> = Vec::new();
        frames.push(Names::new());
        core::mem::swap(&mut frames, &mut self.frames);
        frames.push(Names::new());
        self.frames = frames;
        assert(self@ =~= before.push(Map::empty()));
    }

    /// Ends the innermost scope; the global one stays.
    pub fn pop(&mut self)
        ensures
            final(self)@ == if old(self)@.len() > 1 {
                old(self)@.drop_last()
            } else {
                old(self)@
            },
    {
        proof {
            use_type_invariant(&*self);
        }
        let ghost before = self@;
        if self.frames.len() > 1 {
            let mut frames: Vec<Names<T>> = Vec::new();
            frames.push(Names::new());
            core::mem::swap(&mut frames, &mut self.frames);
            let _gone = frames.pop();
            self.frames = frames;
            assert(self@ =~= before.drop_last());
        }
    }

    /// Takes every frame but the global one away and gives them back.
    pub fn isolate(&mut self) -> (r: Vec<Names<T>>)
        ensures
            final(self)@ == old(self)@.take(1),
            frame_views(r@) == old(self)@.skip(1),
    {
        proof {
            use_type_invariant(&*self);
        }
        let ghost before = self@;
        let mut frames: Vec<Names<T>> = Vec::new();
        frames.push(Names::new());
        core::mem::swap(&mut frames, &mut self.frames);
        let rest = frames.split_off(1);
        self.frames = frames;
        assert(self@ =~= before.take(1));
        assert(frame_views(rest@) =~= before.skip(1));
        rest
    }

    /// Puts frames on top.
    pub fn restore(&mut self, saved: Vec<Names<T>>)
        ensures
            final(self)@ == old(self)@ + frame_views(saved@),
    {
        proof {
            use_type_invariant(&*self);
        }
        let ghost before = self@;
        let mut more = saved;
        let ghost added = frame_views(more@);
        let mut frames: Vec<Names<T>> = Vec::new();
        frames.push(Names::new());
        core::mem::swap(&mut frames, &mut self.frames);
        frames.append(&mut more);
        self.frames = frames;
        assert(self@ =~= before + added);
    }

    /// Takes `name` from the frame that owns it.
    pub fn discard(&mut self, name: &str)
        ensures
            final(self)@ == dropped(old(self)@, name@),
    {
        proof {
            use_type_invariant(&*self);
        }
        let ghost before = self@;
        if let Some(i) = self.owner_of(name) {
            let mut frames: Vec<Names<T>> = Vec::new();
            frames.push(Names::new());
            core::mem::swap(&mut frames, &mut self.frames);
            let _gone = frames[i].remove(name);
            assert(frame_views(frames@) =~= before.update(i as int, before[i as int].remove(name@)));
            self.frames = frames;
            assert(self@ =~= dropped(before, name@));
        }
    }
}

/// The owner is a frame that holds the name, and no frame further in does.
pub proof fn lemma_owner<T>(frames: Seq<Map<Seq<char>, T>>, name: Seq<char>, n: int)
    requires
        0 <= n <= frames.len(),
    ensures
        match owner(frames, name, n) {
            Some(i) => 0 <= i < n && frames[i].contains_key(name) && forall|j: int|
                i < j < n ==> !frames[j].contains_key(name),
            None => forall|j: int| 0 <= j < n ==> !frames[j].contains_key(name),
        },
    decreases n,
{
    if n > 0 && !frames[n - 1].contains_key(name) {
        lemma_owner(frames, name, n - 1);
    }
}

proof fn lemma_owner_is_unique<T>(frames: Seq<Map<Seq<char>, T>>, name: Seq<char>, i: int)
    requires
        0 <= i < frames.len(),
        frames[i].contains_key(name),
        forall|j: int| i < j < frames.len() ==> !frames[j].contains_key(name),
    ensures
        owner(frames, name, frames.len() as int) == Some(i),
{
    lemma_owner(frames, name, frames.len() as int);
}

/// What was assigned is what is read afterwards, and every other name keeps
/// its value.
pub proof fn law_assignment_is_read_back<T>(
    frames: Seq<Map<Seq<char>, T>>,
    name: Seq<char>,
    value: T,
    other: Seq<char>,
)
    requires
        frames.len() >= 1,
        other != name,
    ensures
        visible(assigned(frames, name, value), name) == Some(value),
        visible(assigned(frames, name, value), other) == visible(frames, other),
{
    let after = assigned(frames, name, value);
    lemma_owner(frames, name, frames.len() as int);
    lemma_owner(after, name, after.len() as int);
    lemma_owner(frames, other, frames.len() as int);
    match owner(frames, name, frames.len() as int) {
        Some(i) => {
            lemma_owner_is_unique(after, name, i);
        },
        None => {
            lemma_owner_is_unique(after, name, frames.len() - 1);
        },
    }
    match owner(frames, other, frames.len() as int) {
        Some(i) => {
            lemma_owner_is_unique(after, other, i);
        },
        None => {
            lemma_owner(after, other, after.len() as int);
        },
    }
}

/// A variable of an outer scope that a block assigns keeps the new value after
/// the block; a name that the block defines is gone after it.
pub proof fn law_block_scope<T>(frames: Seq<Map<Seq<char>, T>>, name: Seq<char>, value: T)
    requires
        frames.len() >= 1,
    ensures
        ({
            let inside = assigned(frames.push(Map::empty()), name, value);
            let after = inside.drop_last();
            if visible(frames, name) is Some {
                visible(after, name) == Some(value) && after == assigned(frames, name, value)
            } else {
                visible(after, name) is None && after == frames
            }
        }),
{
    let pushed = frames.push(Map::empty());
    lemma_owner(frames, name, frames.len() as int);
    lemma_owner(pushed, name, pushed.len() as int);
    let inside = assigned(pushed, name, value);
    let after = inside.drop_last();
    match owner(frames, name, frames.len() as int) {
        Some(i) => {
            assert(pushed[i] == frames[i]);
            lemma_owner_is_unique(pushed, name, i);
            assert(after =~= frames.update(i, frames[i].insert(name, value)));
            lemma_owner_is_unique(after, name, i);
        },
        None => {
            assert forall|j: int| 0 <= j < pushed.len() implies !pushed[j].contains_key(name) by {
                if j < frames.len() {
                    assert(pushed[j] == frames[j]);
                }
            }
            assert(owner(pushed, name, pushed.len() as int) is None);
            assert(after =~= frames);
        },
    }
}

/// A local definition hides an outer one only until its block ends.
pub proof fn law_local_definition_ends<T>(
    frames: Seq<Map<Seq<char>, T>>,
    name: Seq<char>,
    value: T,
)
    requires
        frames.len() >= 1,
    ensures
        visible(shadowed(frames.push(Map::empty()), name, value), name) == Some(value),
        shadowed(frames.push(Map::empty()), name, value).drop_last() == frames,
{
    let inside = shadowed(frames.push(Map::empty()), name, value);
    lemma_owner_is_unique(inside, name, frames.len() as int);
    assert(inside.drop_last() =~= frames);
}

/// Hiding the local frames and putting them back changes nothing, and in
/// between only the global variables can be seen.
pub proof fn law_isolation_is_undone<T>(frames: Seq<Map<Seq<char>, T>>, name: Seq<char>)
    requires
        frames.len() >= 1,
    ensures
        frames.take(1) + frames.skip(1) == frames,
        visible(frames.take(1), name) == if frames[0].contains_key(name) {
            Some(frames[0][name])
        } else {
            None
        },
{
    assert(frames.take(1) + frames.skip(1) =~= frames);
    lemma_owner(frames.take(1), name, 1);
}

/// The value of a name is that of the innermost frame that holds it, and a
/// name that no frame holds has none.
pub proof fn law_innermost_frame_counts<T>(frames: Seq<Map<Seq<char>, T>>, name: Seq<char>, i: int)
    ensures
        0 <= i < frames.len() && frames[i].contains_key(name) && (forall|k: int|
            i < k < frames.len() ==> !(#[trigger] frames[k]).contains_key(name)) ==> visible(
            frames,
            name,
        ) == Some(frames[i][name]),
        (forall|k: int| 0 <= k < frames.len() ==> !(#[trigger] frames[k]).contains_key(name))
            ==> visible(frames, name) is None,
{
    lemma_owner(frames, name, frames.len() as int);
    if 0 <= i < frames.len() && frames[i].contains_key(name) && (forall|k: int|
        i < k < frames.len() ==> !(#[trigger] frames[k]).contains_key(name)) {
        lemma_owner_is_unique(frames, name, i);
    }
}

/// Dropping a name takes it from the innermost frame that holds it: what
/// stands further out can be seen again, and every other name keeps its
/// value.
pub proof fn law_dropping_uncovers<T>(
    frames: Seq<Map<Seq<char>, T>>,
    name: Seq<char>,
    i: int,
    other: Seq<char>,
)
    requires
        0 <= i < frames.len(),
        frames[i].contains_key(name),
        forall|k: int| i < k < frames.len() ==> !(#[trigger] frames[k]).contains_key(name),
        other != name,
    ensures
        visible(dropped(frames, name), name) == visible(frames.take(i), name),
        visible(dropped(frames, name), other) == visible(frames, other),
        dropped(frames, name).len() == frames.len(),
{
    lemma_owner_is_unique(frames, name, i);
    let after = dropped(frames, name);
    let outer = frames.take(i);
    lemma_owner(outer, name, i);
    lemma_owner(after, name, after.len() as int);
    match owner(outer, name, i) {
        Some(j) => {
            assert(outer[j] == frames[j] && after[j] == frames[j]);
            assert forall|k: int| j < k < after.len() implies !(
            #[trigger] after[k]).contains_key(name) by {
                if k < i {
                    assert(outer[k] == frames[k]);
                }
            }
            lemma_owner_is_unique(after, name, j);
        },
        None => {
            assert forall|k: int| 0 <= k < after.len() implies !(
            #[trigger] after[k]).contains_key(name) by {
                if k < i {
                    assert(outer[k] == frames[k]);
                }
            }
        },
    }
    lemma_owner(frames, other, frames.len() as int);
    match owner(frames, other, frames.len() as int) {
        Some(j) => {
            lemma_owner_is_unique(after, other, j);
        },
        None => {
            lemma_owner(after, other, after.len() as int);
        },
    }
}

} // verus!
