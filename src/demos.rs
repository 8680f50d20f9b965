//! The registry: a fixed list of demos and the set of those that are open.

use vstd::prelude::*;

use crate::text_order::compare_names;
use crate::visibility::{with_open, VisibilitySet};

verus! {

/// A self-contained panel that can be opened, closed and drawn.
pub trait Demo {
    /// The name shown in the checklist and used as the persisted key; it does
    /// not change over the demo's life.
    fn name(&self) -> &'static str;

    /// Draws the demo's window, which is open when this is called; the demo
    /// may clear `open`, e.g. when its window is closed from within.
    fn show(&mut self, ctx: &egui::CtxRef, open: &mut bool)
        requires
            *old(open),
    ;
}

/// The character sequences of a list of names, position by position.
pub open spec fn name_views(v: Seq<&'static str>) -> Seq<Seq<char>> {
    v.map_values(|s: &'static str| s@)
}

/// The registered demos, in registration order, and the names of those that
/// are open. Each demo's name is read once, when it is registered, and is the
/// key under which its open state is kept.
pub struct Demos {
    demos: Vec<Box<dyn Demo>>,
    names: Vec<&'static str>,
    open: VisibilitySet,
}

impl Demos {
    /// The demos, in registration order.
    pub closed spec fn demo_seq(&self) -> Seq<Box<dyn Demo>> {
        self.demos@
    }

    /// The keys of the demos, position by position with `demo_seq`.
    pub closed spec fn keys(&self) -> Seq<Seq<char>> {
        name_views(self.names@)
    }

    /// The names that are open; they may include names that no demo carries.
    pub closed spec fn open_names(&self) -> Set<Seq<char>> {
        self.open@
    }

    pub closed spec fn wf(&self) -> bool {
        &&& self.open.wf()
        &&& self.names@.len() == self.demos@.len()
    }

    /// A registry has one key per demo.
    pub proof fn lemma_one_key_per_demo(&self)
        requires
            self.wf(),
        ensures
            self.keys().len() == self.demo_seq().len(),
    {
    }

    /// Registers `demos` with `open` as the set of open names, e.g. one
    /// restored from an earlier session.
    pub fn restore(demos: Vec<Box<dyn Demo>>, open: VisibilitySet) -> (r: Demos)
        requires
            open.wf(),
        ensures
            r.wf(),
            r.demo_seq() == demos@,
            r.keys().len() == demos@.len(),
            r.open_names() == open@,
    {
        let mut names: Vec<&'static str> = Vec::new();
        let mut i: usize = 0;
        while i < demos.len()
            invariant
                i <= demos@.len(),
                names@.len() == i,
            decreases demos@.len() - i,
        {
            names.push(demos[i].name());
            i = i + 1;
        }
        Demos { demos, names, open }
    }

    /// Registers `demos` with only `default_open` open.
    pub fn new(demos: Vec<Box<dyn Demo>>, default_open: &str) -> (r: Demos)
        ensures
            r.wf(),
            r.demo_seq() == demos@,
            r.keys().len() == demos@.len(),
            forall|name: Seq<char>| #[trigger]
                r.open_names().contains(name) <==> name == default_open@,
    {
        let mut open = VisibilitySet::new();
        open.set_open(default_open, true);
        Demos::restore(demos, open)
    }

    /// The set of open names, as it is to be persisted.
    pub fn open(&self) -> (r: &VisibilitySet)
        requires
            self.wf(),
        ensures
            r.wf(),
            r@ == self.open_names(),
    {
        &self.open
    }

    /// Whether no two demos carry the same name. Names are the persisted
    /// keys, so a registration list for which this is false is a
    /// configuration error that a host should reject at startup.
    pub fn names_unique(&self) -> (r: bool)
        requires
            self.wf(),
        ensures
            r == self.keys().no_duplicates(),
    {
        let ghost k = self.keys();
        let n = self.names.len();
        let mut i: usize = 0;
        while i < n
            invariant
                n == k.len(),
                k == name_views(self.names@),
                i <= n,
                forall|a: int, b: int| 0 <= a < i && 0 <= b < n && a != b ==> k[a] != k[b],
            decreases n - i,
        {
            let mut j: usize = 0;
            while j < n
                invariant
                    n == k.len(),
                    k == name_views(self.names@),
                    i < n,
                    j <= n,
                    forall|a: int, b: int| 0 <= a < i && 0 <= b < n && a != b ==> k[a] != k[b],
                    forall|b: int| 0 <= b < j && b != i ==> k[i as int] != k[b],
                decreases n - j,
            {
                if j != i && matches!(
                    compare_names(self.names[i], self.names[j]),
                    core::cmp::Ordering::Equal
                ) {
                    proof {
                        assert(k[i as int] == k[j as int]);
                    }
                    return false;
                }
                j = j + 1;
            }
            i = i + 1;
        }
        true
    }

    /// Whether the demo called `name` is open.
    pub fn is_open(&self, name: &str) -> (r: bool)
        requires
            self.wf(),
        ensures
            r == self.open_names().contains(name@),
    {
        self.open.is_open(name)
    }

    /// Marks the demo called `name` open or closed.
    pub fn set_open(&mut self, name: &str, open: bool)
        requires
            old(self).wf(),
        ensures
            final(self).wf(),
            final(self).demo_seq() == old(self).demo_seq(),
            final(self).keys() == old(self).keys(),
            final(self).open_names() == with_open(old(self).open_names(), name@, open),
    {
        self.open.set_open(name, open);
    }

    /// The demos' names, in registration order: the labels of the checklist.
    pub fn names(&self) -> (r: Vec<&'static str>)
        requires
            self.wf(),
        ensures
            name_views(r@) == self.keys(),
    {
        let mut r: Vec<&'static str> = Vec::new();
        let mut i: usize = 0;
        while i < self.names.len()
            invariant
                i <= self.names@.len(),
                r@ == self.names@.subrange(0, i as int),
            decreases self.names@.len() - i,
        {
            r.push(self.names[i]);
            proof {
                assert(r@ =~= self.names@.subrange(0, i + 1));
            }
            i = i + 1;
        }
        proof {
            assert(r@ =~= self.names@);
        }
        r
    }

    /// Takes what the user did to the checklist into the open set: `clicked`
    /// says, for each demo in registration order, whether its box was clicked.
    /// Each click flips the demo's state; names that no demo carries keep
    /// theirs.
    pub fn apply_clicks(&mut self, clicked: &Vec<bool>)
        requires
            old(self).wf(),
            clicked@.len() == old(self).keys().len(),
        ensures
            final(self).wf(),
            final(self).demo_seq() == old(self).demo_seq(),
            final(self).keys() == old(self).keys(),
            final(self).open_names() == toggled(old(self).open_names(), old(self).keys(), clicked@),
    {
        let ghost start = self.open@;
        let ghost keys = name_views(self.names@);
        let mut i: usize = 0;
        while i < self.names.len()
            invariant
                self.wf(),
                self.demos@ == old(self).demos@,
                self.names@ == old(self).names@,
                keys == name_views(self.names@),
                clicked@.len() == keys.len(),
                i <= self.names@.len(),
                self.open@ == toggled(start, keys.subrange(0, i as int), clicked@.subrange(0, i as int)),
            decreases self.names@.len() - i,
        {
            let name = self.names[i];
            let ghost before = self.open@;
            let is_open = self.open.is_open(name);
            self.open.set_open(name, is_open != clicked[i]);
            proof {
                let k = keys.subrange(0, i + 1);
                let c = clicked@.subrange(0, i + 1);
                assert(k.drop_last() =~= keys.subrange(0, i as int));
                assert(c.drop_last() =~= clicked@.subrange(0, i as int));
                assert(k.last() == name@);
                assert(toggled(start, k, c) == with_open(
                    before,
                    name@,
                    before.contains(name@) != clicked@[i as int],
                ));
            }
            i = i + 1;
        }
        proof {
            assert(keys.subrange(0, i as int) =~= keys);
            assert(clicked@.subrange(0, i as int) =~= clicked@);
        }
    }

    /// Draws every open demo, in registration order, each with a flag that
    /// starts `true`, and takes back the flag it left. Returns, for each
    /// demo, the flag it left, `false` for a demo that was not drawn. A demo
    /// that is not open is not drawn at all, and no demo is opened.
    pub fn show(&mut self, ctx: &egui::CtxRef) -> (left_open: Vec<bool>)
        requires
            old(self).wf(),
        ensures
            final(self).wf(),
            final(self).keys() == old(self).keys(),
            final(self).demo_seq().len() == old(self).demo_seq().len(),
            left_open@.len() == old(self).keys().len(),
            final(self).open_names() == marked(old(self).open_names(), old(self).keys(), left_open@),
            forall|i: int|
                0 <= i < old(self).demo_seq().len() && !old(self).open_names().contains(
                    #[trigger] old(self).keys()[i],
                ) ==> final(self).demo_seq()[i] == old(self).demo_seq()[i] && !left_open@[i],
            forall|name: Seq<char>| #[trigger]
                final(self).open_names().contains(name) ==> old(self).open_names().contains(name),
    {
        let ghost start = self.open@;
        let ghost keys = name_views(self.names@);
        let mut left_open: Vec<bool> = Vec::new();
        let mut i: usize = 0;
        while i < self.demos.len()
            invariant
                self.wf(),
                self.names@ == old(self).names@,
                keys == name_views(self.names@),
                self.demos@.len() == old(self).demos@.len(),
                i <= self.demos@.len(),
                left_open@.len() == i,
                self.open@ == marked(start, keys.subrange(0, i as int), left_open@),
                forall|j: int|
                    i <= j < self.demos@.len() ==> #[trigger] self.demos@[j] == old(self).demos@[j],
                forall|j: int|
                    0 <= j < i && !start.contains(#[trigger] keys[j]) ==> self.demos@[j] == old(
                        self,
                    ).demos@[j] && !left_open@[j],
                forall|name: Seq<char>| #[trigger]
                    self.open@.contains(name) ==> start.contains(name),
            decreases self.demos@.len() - i,
        {
            let name = self.names[i];
            proof {
                assert(keys[i as int] == name@);
            }
            let mut is_open = self.open.is_open(name);
            if is_open {
                self.demos[i].show(ctx, &mut is_open);
            }
            let ghost before = self.open@;
            let ghost left_before = left_open@;
            self.open.set_open(name, is_open);
            left_open.push(is_open);
            proof {
                let k = keys.subrange(0, i + 1);
                assert(k.drop_last() =~= keys.subrange(0, i as int));
                assert(left_open@.drop_last() =~= left_before);
                assert(k.last() == name@);
                assert(marked(start, k, left_open@) == with_open(before, name@, is_open));
            }
            i = i + 1;
        }
        proof {
            assert(keys.subrange(0, i as int) =~= keys);
        }
        left_open
    }
}

/// The open set after each name of `keys`, in order, is marked open or
/// closed by the flag at the same position of `flags`.
pub open spec fn marked(s: Set<Seq<char>>, keys: Seq<Seq<char>>, flags: Seq<bool>) -> Set<
    Seq<char>,
>
    decreases keys.len(),
{
    if keys.len() == 0 {
        s
    } else {
        with_open(marked(s, keys.drop_last(), flags.drop_last()), keys.last(), flags.last())
    }
}

/// The open set after each name of `keys`, in order, is flipped where the
/// flag at the same position of `clicks` is set.
pub open spec fn toggled(s: Set<Seq<char>>, keys: Seq<Seq<char>>, clicks: Seq<bool>) -> Set<
    Seq<char>,
>
    decreases keys.len(),
{
    if keys.len() == 0 {
        s
    } else {
        let before = toggled(s, keys.drop_last(), clicks.drop_last());
        with_open(before, keys.last(), before.contains(keys.last()) != clicks.last())
    }
}

/// With distinct names, marking leaves each name of `keys` open exactly when
/// its flag is set, and every other name as it was.
pub proof fn lemma_marked_per_name(s: Set<Seq<char>>, keys: Seq<Seq<char>>, flags: Seq<bool>)
    requires
        keys.no_duplicates(),
        flags.len() == keys.len(),
    ensures
        forall|i: int| 0 <= i < keys.len() ==> #[trigger] marked(s, keys, flags).contains(keys[i])
            == flags[i],
        forall|name: Seq<char>|
            !keys.contains(name) ==> (#[trigger] marked(s, keys, flags).contains(name)
                == s.contains(name)),
    decreases keys.len(),
{
    if keys.len() > 0 {
        let k = keys.drop_last();
        let f = flags.drop_last();
        lemma_marked_per_name(s, k, f);
        assert(marked(s, keys, flags) == with_open(marked(s, k, f), keys.last(), flags.last()));
        assert forall|name: Seq<char>| !keys.contains(name) implies (#[trigger] marked(
            s,
            keys,
            flags,
        ).contains(name) == s.contains(name)) by {
            assert(name != keys.last());
            if k.contains(name) {
                let j = choose|j: int| 0 <= j < k.len() && k[j] == name;
                assert(keys[j] == name);
            }
        }
        assert forall|i: int| 0 <= i < keys.len() implies #[trigger] marked(
            s,
            keys,
            flags,
        ).contains(keys[i]) == flags[i] by {
            if i < keys.len() - 1 {
                assert(k[i] == keys[i]);
                assert(keys[i] != keys.last());
            }
        }
    }
}

/// With distinct names, each click flips its own name's state, and every
/// other name keeps its state.
pub proof fn lemma_toggled_per_name(s: Set<Seq<char>>, keys: Seq<Seq<char>>, clicks: Seq<bool>)
    requires
        keys.no_duplicates(),
        clicks.len() == keys.len(),
    ensures
        forall|i: int| 0 <= i < keys.len() ==> #[trigger] toggled(s, keys, clicks).contains(keys[i])
            == (s.contains(keys[i]) != clicks[i]),
        forall|name: Seq<char>|
            !keys.contains(name) ==> (#[trigger] toggled(s, keys, clicks).contains(name)
                == s.contains(name)),
    decreases keys.len(),
{
    if keys.len() > 0 {
        let k = keys.drop_last();
        let c = clicks.drop_last();
        lemma_toggled_per_name(s, k, c);
        let before = toggled(s, k, c);
        assert(toggled(s, keys, clicks) == with_open(
            before,
            keys.last(),
            before.contains(keys.last()) != clicks.last(),
        ));
        assert(!k.contains(keys.last())) by {
            if k.contains(keys.last()) {
                let j = choose|j: int| 0 <= j < k.len() && k[j] == keys.last();
                assert(keys[j] == keys[keys.len() - 1]);
            }
        }
        assert forall|name: Seq<char>| !keys.contains(name) implies (#[trigger] toggled(
            s,
            keys,
            clicks,
        ).contains(name) == s.contains(name)) by {
            assert(name != keys.last());
            if k.contains(name) {
                let j = choose|j: int| 0 <= j < k.len() && k[j] == name;
                assert(keys[j] == name);
            }
        }
        assert forall|i: int| 0 <= i < keys.len() implies #[trigger] toggled(
            s,
            keys,
            clicks,
        ).contains(keys[i]) == (s.contains(keys[i]) != clicks[i]) by {
            if i < keys.len() - 1 {
                assert(k[i] == keys[i]);
                assert(keys[i] != keys.last());
            }
        }
    }
}

/// A frame in which no box is clicked leaves the open set as it was.
pub proof fn lemma_no_clicks_no_change(s: Set<Seq<char>>, keys: Seq<Seq<char>>, clicks: Seq<bool>)
    requires
        clicks.len() == keys.len(),
        forall|i: int| 0 <= i < clicks.len() ==> !#[trigger] clicks[i],
    ensures
        toggled(s, keys, clicks) == s,
    decreases keys.len(),
{
    if keys.len() > 0 {
        lemma_no_clicks_no_change(s, keys.drop_last(), clicks.drop_last());
        let before = toggled(s, keys.drop_last(), clicks.drop_last());
        assert(!clicks[clicks.len() - 1]);
        if before.contains(keys.last()) {
            assert(before.insert(keys.last()) =~= before);
        } else {
            assert(before.remove(keys.last()) =~= before);
        }
    }
}

/// With distinct names, when every open demo leaves its flag set, drawing
/// leaves the open set as it was.
pub proof fn lemma_nothing_closed_no_change(
    s: Set<Seq<char>>,
    keys: Seq<Seq<char>>,
    flags: Seq<bool>,
)
    requires
        keys.no_duplicates(),
        flags.len() == keys.len(),
        forall|i: int| 0 <= i < keys.len() ==> #[trigger] flags[i] == s.contains(keys[i]),
    ensures
        marked(s, keys, flags) == s,
{
    lemma_marked_per_name(s, keys, flags);
    assert forall|name: Seq<char>| #[trigger] marked(s, keys, flags).contains(name)
        == s.contains(name) by {
        if keys.contains(name) {
            let j = choose|j: int| 0 <= j < keys.len() && keys[j] == name;
            assert(flags[j] == s.contains(keys[j]));
        }
    }
    assert(marked(s, keys, flags) =~= s);
}

} // verus!
