use vstd::prelude::*;

use crate::dirty::key::Key;

verus! {

/// One resolved presentation primitive: a surface, text, image or path, each
/// carrying its own payload.
#[derive(Clone, Debug, PartialEq)]
pub enum Primitive<Su, Te, Im, Pa> {
    /// A resolved box-decoration surface.
    Surface(Su),
    /// Resolved text intent.
    Text(Te),
    /// Resolved image intent.
    Image(Im),
    /// Resolved path drawing intent.
    Path(Pa),
}

impl<Su, Te, Im, Pa> Primitive<Su, Te, Im, Pa> {
    /// Creates a surface primitive.
    pub fn surface(surface: Su) -> (r: Self)
        ensures
            r == Primitive::<Su, Te, Im, Pa>::Surface(surface),
    {
        Primitive::Surface(surface)
    }

    /// Creates a text primitive.
    pub fn text(text: Te) -> (r: Self)
        ensures
            r == Primitive::<Su, Te, Im, Pa>::Text(text),
    {
        Primitive::Text(text)
    }

    /// Creates an image primitive.
    pub fn image(image: Im) -> (r: Self)
        ensures
            r == Primitive::<Su, Te, Im, Pa>::Image(image),
    {
        Primitive::Image(image)
    }

    /// Creates a path primitive.
    pub fn path(path: Pa) -> (r: Self)
        ensures
            r == Primitive::<Su, Te, Im, Pa>::Path(path),
    {
        Primitive::Path(path)
    }

    /// This primitive's surface, if it is one.
    pub fn as_surface(&self) -> (r: Option<&Su>)
        ensures
            r == match *self {
                Primitive::Surface(s) => Some(&s),
                _ => None::<&Su>,
            },
    {
        match self {
            Primitive::Surface(s) => Some(s),
            _ => None,
        }
    }

    /// This primitive's text, if it is text.
    pub fn as_text(&self) -> (r: Option<&Te>)
        ensures
            r == match *self {
                Primitive::Text(t) => Some(&t),
                _ => None::<&Te>,
            },
    {
        match self {
            Primitive::Text(t) => Some(t),
            _ => None,
        }
    }

    /// This primitive's image, if it is one.
    pub fn as_image(&self) -> (r: Option<&Im>)
        ensures
            r == match *self {
                Primitive::Image(i) => Some(&i),
                _ => None::<&Im>,
            },
    {
        match self {
            Primitive::Image(i) => Some(i),
            _ => None,
        }
    }

    /// This primitive's path, if it is one.
    pub fn as_path(&self) -> (r: Option<&Pa>)
        ensures
            r == match *self {
                Primitive::Path(p) => Some(&p),
                _ => None::<&Pa>,
            },
    {
        match self {
            Primitive::Path(p) => Some(p),
            _ => None,
        }
    }
}

/// The kind of a presentation primitive.
#[derive(Copy, Clone, Debug, PartialEq, Eq, Structural)]
pub enum PrimitiveKind {
    /// A surface.
    Surface,
    /// Text.
    Text,
    /// An image.
    Image,
    /// A path.
    Path,
}

/// The kind of `p`.
pub open spec fn kind_of<Su, Te, Im, Pa>(p: Primitive<Su, Te, Im, Pa>) -> PrimitiveKind {
    match p {
        Primitive::Surface(_) => PrimitiveKind::Surface,
        Primitive::Text(_) => PrimitiveKind::Text,
        Primitive::Image(_) => PrimitiveKind::Image,
        Primitive::Path(_) => PrimitiveKind::Path,
    }
}

/// Whether some primitive of `ps` is of `kind`.
pub open spec fn has_kind<Su, Te, Im, Pa>(ps: Seq<Primitive<Su, Te, Im, Pa>>, kind: PrimitiveKind) -> bool {
    exists|i: int| 0 <= i < ps.len() && kind_of(#[trigger] ps[i]) == kind
}

/// `i` is the index of the first primitive of `ps` of `kind`.
pub open spec fn is_first_kind<Su, Te, Im, Pa>(ps: Seq<Primitive<Su, Te, Im, Pa>>, kind: PrimitiveKind, i: int) -> bool {
    &&& 0 <= i < ps.len()
    &&& kind_of(ps[i]) == kind
    &&& forall|j: int| 0 <= j < i ==> kind_of(#[trigger] ps[j]) != kind
}

/// `new` is `old` with the first primitive of `kind` changed from `now` to
/// `fin`, or, when there was none, with `fin` appended.
pub open spec fn changed_first<Su, Te, Im, Pa>(
    old: Seq<Primitive<Su, Te, Im, Pa>>,
    new: Seq<Primitive<Su, Te, Im, Pa>>,
    kind: PrimitiveKind,
    now: Primitive<Su, Te, Im, Pa>,
    fin: Primitive<Su, Te, Im, Pa>,
) -> bool {
    &&& has_kind(old, kind) ==> exists|i: int| is_first_kind(old, kind, i) && old[i] == now && new == old.update(i, fin)
    &&& !has_kind(old, kind) ==> new == old.push(fin)
}

/// `new` is `old` with the first primitive of `kind` replaced by `fin`, or,
/// when there was none, with `fin` appended.
pub open spec fn set_first<Su, Te, Im, Pa>(
    old: Seq<Primitive<Su, Te, Im, Pa>>,
    new: Seq<Primitive<Su, Te, Im, Pa>>,
    kind: PrimitiveKind,
    fin: Primitive<Su, Te, Im, Pa>,
) -> bool {
    &&& has_kind(old, kind) ==> exists|i: int| is_first_kind(old, kind, i) && new == old.update(i, fin)
    &&& !has_kind(old, kind) ==> new == old.push(fin)
}

/// Retained presentation data for one geometry node: the host's source key
/// and the resolved primitives, in order.
#[derive(Clone, Debug)]
pub struct PresentationNode<S, Su, Te, Im, Pa> {
    source: S,
    primitives: Vec<Primitive<Su, Te, Im, Pa>>,
}

impl<S, Su, Te, Im, Pa> PresentationNode<S, Su, Te, Im, Pa> {
    /// The source key.
    pub closed spec fn source_view(self) -> S {
        self.source
    }

    /// The primitives, in order.
    pub closed spec fn primitives_view(self) -> Seq<Primitive<Su, Te, Im, Pa>> {
        self.primitives@
    }

    /// Whether this is a node for `source` with no primitives.
    pub open spec fn is_fresh(self, source: S) -> bool {
        self.source_view() == source && self.primitives_view().len() == 0
    }

    /// The index of the first primitive of `kind`, searching from the top.
    fn position(&self, kind: PrimitiveKind) -> (r: Option<usize>)
        ensures
            r is None <==> !has_kind(self.primitives_view(), kind),
            r matches Some(i) ==> is_first_kind(self.primitives_view(), kind, i as int),
    {
        let mut i: usize = 0;
        while i < self.primitives.len()
            invariant
                i <= self.primitives@.len(),
                forall|j: int| 0 <= j < i ==> kind_of(#[trigger] self.primitives@[j]) != kind,
            decreases self.primitives.len() - i,
        {
            let here = match &self.primitives[i] {
                Primitive::Surface(_) => PrimitiveKind::Surface,
                Primitive::Text(_) => PrimitiveKind::Text,
                Primitive::Image(_) => PrimitiveKind::Image,
                Primitive::Path(_) => PrimitiveKind::Path,
            };
            if here == kind {
                return Some(i);
            }
            i += 1;
        }
        None
    }

    /// Creates a node for `source` with no primitives.
    pub fn new(source: S) -> (n: Self)
        ensures
            n.source_view() == source,
            n.primitives_view() == Seq::<Primitive<Su, Te, Im, Pa>>::empty(),
    {
        PresentationNode { source, primitives: Vec::new() }
    }

    /// The source key.
    pub fn source(&self) -> (r: &S)
        ensures
            *r == self.source_view(),
    {
        &self.source
    }

    /// The source key, for changing.
    pub fn source_mut(&mut self) -> (r: &mut S)
        ensures
            *r == old(self).source_view(),
            final(self).source_view() == *final(r),
            final(self).primitives_view() == old(self).primitives_view(),
    {
        &mut self.source
    }

    /// The primitives, for changing.
    pub fn primitives_mut(&mut self) -> (r: &mut Vec<Primitive<Su, Te, Im, Pa>>)
        ensures
            r@ == old(self).primitives_view(),
            final(self).primitives_view() == final(r)@,
            final(self).source_view() == old(self).source_view(),
    {
        &mut self.primitives
    }

    /// Replaces the source key.
    pub fn set_source(&mut self, source: S)
        ensures
            final(self).source_view() == source,
            final(self).primitives_view() == old(self).primitives_view(),
    {
        self.source = source;
    }

    /// The primitives, in order.
    pub fn primitives(&self) -> (r: &[Primitive<Su, Te, Im, Pa>])
        ensures
            r@ == self.primitives_view(),
    {
        self.primitives.as_slice()
    }

    /// Removes every primitive.
    pub fn clear_primitives(&mut self)
        ensures
            final(self).source_view() == old(self).source_view(),
            final(self).primitives_view() == Seq::<Primitive<Su, Te, Im, Pa>>::empty(),
    {
        self.primitives.clear();
    }

    /// The first surface, if any.
    pub fn surface(&self) -> (r: Option<&Su>)
        ensures
            match r {
                None => !has_kind(self.primitives_view(), PrimitiveKind::Surface),
                Some(x) => exists|i: int|
                    is_first_kind(self.primitives_view(), PrimitiveKind::Surface, i) && self.primitives_view()[i]
                        == Primitive::<Su, Te, Im, Pa>::Surface(*x),
            },
    {
        match self.position(PrimitiveKind::Surface) {
            Some(i) => match &self.primitives[i] {
                Primitive::Surface(x) => Some(x),
                _ => None,
            },
            None => None,
        }
    }

    /// The first surface, appending a default one when there is none.
    pub fn surface_mut(&mut self) -> (r: &mut Su) where Su: Default
        ensures
            final(self).source_view() == old(self).source_view(),
            has_kind(old(self).primitives_view(), PrimitiveKind::Surface) ==> exists|i: int|
                is_first_kind(old(self).primitives_view(), PrimitiveKind::Surface, i) && old(self).primitives_view()[i]
                    == Primitive::<Su, Te, Im, Pa>::Surface(*r) && final(self).primitives_view()
                    == old(self).primitives_view().update(i, Primitive::<Su, Te, Im, Pa>::Surface(*final(r))),
            !has_kind(old(self).primitives_view(), PrimitiveKind::Surface) ==> final(self).primitives_view()
                == old(self).primitives_view().push(Primitive::<Su, Te, Im, Pa>::Surface(*final(r))),
    {
        let index = match self.position(PrimitiveKind::Surface) {
            Some(i) => i,
            None => {
                self.primitives.push(Primitive::Surface(Su::default()));
                self.primitives.len() - 1
            },
        };
        match &mut self.primitives[index] {
            Primitive::Surface(x) => x,
            _ => unreached(),
        }
    }

    /// The first text, if any.
    pub fn text(&self) -> (r: Option<&Te>)
        ensures
            match r {
                None => !has_kind(self.primitives_view(), PrimitiveKind::Text),
                Some(x) => exists|i: int|
                    is_first_kind(self.primitives_view(), PrimitiveKind::Text, i) && self.primitives_view()[i]
                        == Primitive::<Su, Te, Im, Pa>::Text(*x),
            },
    {
        match self.position(PrimitiveKind::Text) {
            Some(i) => match &self.primitives[i] {
                Primitive::Text(x) => Some(x),
                _ => None,
            },
            None => None,
        }
    }

    /// The first text, appending a default one when there is none.
    pub fn text_mut(&mut self) -> (r: &mut Te) where Te: Default
        ensures
            final(self).source_view() == old(self).source_view(),
            has_kind(old(self).primitives_view(), PrimitiveKind::Text) ==> exists|i: int|
                is_first_kind(old(self).primitives_view(), PrimitiveKind::Text, i) && old(self).primitives_view()[i]
                    == Primitive::<Su, Te, Im, Pa>::Text(*r) && final(self).primitives_view()
                    == old(self).primitives_view().update(i, Primitive::<Su, Te, Im, Pa>::Text(*final(r))),
            !has_kind(old(self).primitives_view(), PrimitiveKind::Text) ==> final(self).primitives_view()
                == old(self).primitives_view().push(Primitive::<Su, Te, Im, Pa>::Text(*final(r))),
    {
        let index = match self.position(PrimitiveKind::Text) {
            Some(i) => i,
            None => {
                self.primitives.push(Primitive::Text(Te::default()));
                self.primitives.len() - 1
            },
        };
        match &mut self.primitives[index] {
            Primitive::Text(x) => x,
            _ => unreached(),
        }
    }

    /// The first image, if any.
    pub fn image(&self) -> (r: Option<&Im>)
        ensures
            match r {
                None => !has_kind(self.primitives_view(), PrimitiveKind::Image),
                Some(x) => exists|i: int|
                    is_first_kind(self.primitives_view(), PrimitiveKind::Image, i) && self.primitives_view()[i]
                        == Primitive::<Su, Te, Im, Pa>::Image(*x),
            },
    {
        match self.position(PrimitiveKind::Image) {
            Some(i) => match &self.primitives[i] {
                Primitive::Image(x) => Some(x),
                _ => None,
            },
            None => None,
        }
    }

    /// The first image for changing, if any; creates none.
    pub fn image_mut(&mut self) -> (r: Option<&mut Im>)
        ensures
            final(self).source_view() == old(self).source_view(),
            r is None <==> !has_kind(old(self).primitives_view(), PrimitiveKind::Image),
            r is None ==> final(self).primitives_view() == old(self).primitives_view(),
            r is Some ==> exists|i: int|
                is_first_kind(old(self).primitives_view(), PrimitiveKind::Image, i) && old(self).primitives_view()[i]
                    == Primitive::<Su, Te, Im, Pa>::Image(*r.unwrap()) && final(self).primitives_view()
                    == old(self).primitives_view().update(i, Primitive::<Su, Te, Im, Pa>::Image(*final(r.unwrap()))),
    {
        match self.position(PrimitiveKind::Image) {
            Some(i) => match &mut self.primitives[i] {
                Primitive::Image(x) => Some(x),
                _ => unreached(),
            },
            None => None,
        }
    }

    /// Replaces the first image with `image`, or appends `image` when there is none.
    pub fn set_image(&mut self, image: Im) -> (r: &mut Im)
        ensures
            *r == image,
            final(self).source_view() == old(self).source_view(),
            has_kind(old(self).primitives_view(), PrimitiveKind::Image) ==> exists|i: int|
                is_first_kind(old(self).primitives_view(), PrimitiveKind::Image, i) && final(self).primitives_view()
                    == old(self).primitives_view().update(i, Primitive::<Su, Te, Im, Pa>::Image(*final(r))),
            !has_kind(old(self).primitives_view(), PrimitiveKind::Image) ==> final(self).primitives_view()
                == old(self).primitives_view().push(Primitive::<Su, Te, Im, Pa>::Image(*final(r))),
    {
        let index = match self.position(PrimitiveKind::Image) {
            Some(i) => {
                self.primitives.set(i, Primitive::Image(image));
                i
            },
            None => {
                self.primitives.push(Primitive::Image(image));
                self.primitives.len() - 1
            },
        };
        match &mut self.primitives[index] {
            Primitive::Image(x) => x,
            _ => unreached(),
        }
    }

    /// The first path, if any.
    pub fn path(&self) -> (r: Option<&Pa>)
        ensures
            match r {
                None => !has_kind(self.primitives_view(), PrimitiveKind::Path),
                Some(x) => exists|i: int|
                    is_first_kind(self.primitives_view(), PrimitiveKind::Path, i) && self.primitives_view()[i]
                        == Primitive::<Su, Te, Im, Pa>::Path(*x),
            },
    {
        match self.position(PrimitiveKind::Path) {
            Some(i) => match &self.primitives[i] {
                Primitive::Path(x) => Some(x),
                _ => None,
            },
            None => None,
        }
    }

    /// The first path for changing, if any; creates none.
    pub fn path_mut(&mut self) -> (r: Option<&mut Pa>)
        ensures
            final(self).source_view() == old(self).source_view(),
            r is None <==> !has_kind(old(self).primitives_view(), PrimitiveKind::Path),
            r is None ==> final(self).primitives_view() == old(self).primitives_view(),
            r is Some ==> exists|i: int|
                is_first_kind(old(self).primitives_view(), PrimitiveKind::Path, i) && old(self).primitives_view()[i]
                    == Primitive::<Su, Te, Im, Pa>::Path(*r.unwrap()) && final(self).primitives_view()
                    == old(self).primitives_view().update(i, Primitive::<Su, Te, Im, Pa>::Path(*final(r.unwrap()))),
    {
        match self.position(PrimitiveKind::Path) {
            Some(i) => match &mut self.primitives[i] {
                Primitive::Path(x) => Some(x),
                _ => unreached(),
            },
            None => None,
        }
    }

    /// Replaces the first path with `path`, or appends `path` when there is none.
    pub fn set_path(&mut self, path: Pa) -> (r: &mut Pa)
        ensures
            *r == path,
            final(self).source_view() == old(self).source_view(),
            has_kind(old(self).primitives_view(), PrimitiveKind::Path) ==> exists|i: int|
                is_first_kind(old(self).primitives_view(), PrimitiveKind::Path, i) && final(self).primitives_view()
                    == old(self).primitives_view().update(i, Primitive::<Su, Te, Im, Pa>::Path(*final(r))),
            !has_kind(old(self).primitives_view(), PrimitiveKind::Path) ==> final(self).primitives_view()
                == old(self).primitives_view().push(Primitive::<Su, Te, Im, Pa>::Path(*final(r))),
    {
        let index = match self.position(PrimitiveKind::Path) {
            Some(i) => {
                self.primitives.set(i, Primitive::Path(path));
                i
            },
            None => {
                self.primitives.push(Primitive::Path(path));
                self.primitives.len() - 1
            },
        };
        match &mut self.primitives[index] {
            Primitive::Path(x) => x,
            _ => unreached(),
        }
    }

    /// Appends `primitive`.
    pub fn push_primitive(&mut self, primitive: Primitive<Su, Te, Im, Pa>)
        ensures
            final(self).source_view() == old(self).source_view(),
            final(self).primitives_view() == old(self).primitives_view().push(primitive),
    {
        self.primitives.push(primitive);
    }
}

/// `k` added to the dirty keys `dirty` unless already there.
pub open spec fn mark_seq<K>(dirty: Seq<K>, k: K) -> Seq<K> {
    if dirty.contains(k) {
        dirty
    } else {
        dirty.push(k)
    }
}

/// The keys of `ks` added, in order, to the dirty keys `dirty`.
pub open spec fn mark_all<K>(dirty: Seq<K>, ks: Seq<K>) -> Seq<K>
    decreases ks.len(),
{
    if ks.len() == 0 {
        dirty
    } else {
        mark_seq(mark_all(dirty, ks.drop_last()), ks.last())
    }
}

/// Flat keyed store of retained presentation nodes: live keys in insertion
/// order, each with its node, and the dirty keys in the order they were first
/// marked.
#[derive(Clone, Debug)]
pub struct PresentationStore<K, S, Su, Te, Im, Pa> {
    keys: Vec<K>,
    nodes: Vec<PresentationNode<S, Su, Te, Im, Pa>>,
    dirty: Vec<K>,
}

impl<K: Key, S, Su, Te, Im, Pa> PresentationStore<K, S, Su, Te, Im, Pa> {
    /// The live keys, in insertion order.
    pub closed spec fn keys_view(self) -> Seq<K> {
        self.keys@
    }

    /// The nodes of the live keys, in the same order.
    pub closed spec fn nodes_view(self) -> Seq<PresentationNode<S, Su, Te, Im, Pa>> {
        self.nodes@
    }

    /// The dirty keys, in the order they were first marked.
    pub closed spec fn dirty_view(self) -> Seq<K> {
        self.dirty@
    }

    /// The row of the live key `key`.
    pub open spec fn row_of(self, key: K) -> int {
        self.keys_view().index_of(key)
    }

    /// Each live key once, one node per key, each dirty key once.
    pub open spec fn wf(self) -> bool {
        &&& self.keys_view().no_duplicates()
        &&& self.nodes_view().len() == self.keys_view().len()
        &&& self.dirty_view().no_duplicates()
    }

    /// `new` is `self` with `key` marked dirty and nothing else changed.
    pub open spec fn marked(self, new: Self, key: K) -> bool {
        &&& new.wf()
        &&& new.keys_view() == self.keys_view()
        &&& new.nodes_view() == self.nodes_view()
        &&& new.dirty_view() == mark_seq(self.dirty_view(), key)
    }

    /// Creates an empty store.
    pub fn new() -> (s: Self)
        ensures
            s.wf(),
            s.keys_view() == Seq::<K>::empty(),
            s.dirty_view() == Seq::<K>::empty(),
    {
        PresentationStore { keys: Vec::new(), nodes: Vec::new(), dirty: Vec::new() }
    }

    /// The row of `key` among the live keys.
    fn find(&self, key: K) -> (r: Option<usize>)
        requires
            self.wf(),
        ensures
            r is None <==> !self.keys_view().contains(key),
            r matches Some(i) ==> i < self.keys_view().len() && self.keys_view()[i as int] == key && i
                == self.row_of(key),
    {
        let mut i: usize = 0;
        while i < self.keys.len()
            invariant
                self.wf(),
                i <= self.keys@.len(),
                forall|j: int| 0 <= j < i ==> self.keys@[j] != key,
            decreases self.keys.len() - i,
        {
            if self.keys[i].key_eq(&key) {
                assert(0 <= i < self.keys@.len() && self.keys@[i as int] == key);
                assert(self.keys@[self.row_of(key)] == key);
                return Some(i);
            }
            i += 1;
        }
        None
    }

    /// The number of live nodes.
    pub fn len(&self) -> (r: usize)
        requires
            self.wf(),
        ensures
            r == self.keys_view().len(),
    {
        self.keys.len()
    }

    /// Returns `true` when no node is live.
    pub fn is_empty(&self) -> (r: bool)
        requires
            self.wf(),
        ensures
            r == (self.keys_view().len() == 0),
    {
        self.keys.len() == 0
    }

    /// Returns `true` when `key` has a live node.
    pub fn contains_key(&self, key: K) -> (r: bool)
        requires
            self.wf(),
        ensures
            r == self.keys_view().contains(key),
    {
        self.find(key).is_some()
    }

    /// Marks `key` dirty unless it already is.
    pub fn mark_dirty(&mut self, key: K)
        requires
            old(self).wf(),
        ensures
            old(self).marked(*final(self), key),
    {
        let mut i: usize = 0;
        while i < self.dirty.len()
            invariant
                *self == *old(self),
                old(self).wf(),
                i <= self.dirty@.len(),
                forall|j: int| 0 <= j < i ==> self.dirty@[j] != key,
            decreases self.dirty.len() - i,
        {
            if self.dirty[i].key_eq(&key) {
                assert(self.dirty@.contains(key));
                return;
            }
            i += 1;
        }
        self.dirty.push(key);
    }

    /// Returns `true` when `key` is dirty.
    pub fn is_dirty(&self, key: K) -> (r: bool)
        ensures
            r == self.dirty_view().contains(key),
    {
        let mut i: usize = 0;
        while i < self.dirty.len()
            invariant
                i <= self.dirty@.len(),
                forall|j: int| 0 <= j < i ==> self.dirty@[j] != key,
            decreases self.dirty.len() - i,
        {
            if self.dirty[i].key_eq(&key) {
                return true;
            }
            i += 1;
        }
        false
    }

    /// The number of dirty keys.
    pub fn dirty_len(&self) -> (r: usize)
        ensures
            r == self.dirty_view().len(),
    {
        self.dirty.len()
    }

    /// Returns `true` when no key is dirty.
    pub fn dirty_is_empty(&self) -> (r: bool)
        ensures
            r == (self.dirty_view().len() == 0),
    {
        self.dirty.len() == 0
    }

    /// Forgets the dirty keys.
    pub fn clear_dirty(&mut self)
        requires
            old(self).wf(),
        ensures
            final(self).wf(),
            final(self).keys_view() == old(self).keys_view(),
            final(self).nodes_view() == old(self).nodes_view(),
            final(self).dirty_view() == Seq::<K>::empty(),
    {
        self.dirty.clear();
    }

    /// Takes the dirty keys, in the order they were first marked; each key
    /// comes once until it is marked again.
    pub fn take_dirty(&mut self) -> (r: Vec<K>)
        requires
            old(self).wf(),
        ensures
            r@ == old(self).dirty_view(),
            r@.no_duplicates(),
            final(self).wf(),
            final(self).keys_view() == old(self).keys_view(),
            final(self).nodes_view() == old(self).nodes_view(),
            final(self).dirty_view() == Seq::<K>::empty(),
    {
        let mut taken: Vec<K> = Vec::new();
        std::mem::swap(&mut taken, &mut self.dirty);
        taken
    }

    /// `new` is `self` with the node of the live key `key` replaced by
    /// `node` and `key` marked dirty.
    pub open spec fn node_replaced(self, new: Self, key: K, node: PresentationNode<S, Su, Te, Im, Pa>) -> bool {
        &&& new.wf()
        &&& self.keys_view().contains(key)
        &&& new.keys_view() == self.keys_view()
        &&& new.nodes_view() == self.nodes_view().update(self.row_of(key), node)
        &&& new.dirty_view() == mark_seq(self.dirty_view(), key)
    }

    /// `new` is `self` with `key` marked dirty and the node of `key` changed
    /// in its primitives only.
    pub open spec fn node_primitives_changed(self, new: Self, key: K) -> bool {
        &&& self.node_replaced(new, key, new.nodes_view()[self.row_of(key)])
        &&& new.nodes_view()[self.row_of(key)].source_view() == self.nodes_view()[self.row_of(key)].source_view()
    }

    /// Whether the node of `key` is live and holds a primitive of `kind`.
    pub open spec fn has_primitive(self, key: K, kind: PrimitiveKind) -> bool {
        self.keys_view().contains(key) && has_kind(self.nodes_view()[self.row_of(key)].primitives_view(), kind)
    }

    /// `new` has exactly the keys, nodes and dirty keys of `self`.
    pub open spec fn same(self, new: Self) -> bool {
        &&& new.wf()
        &&& new.keys_view() == self.keys_view()
        &&& new.nodes_view() == self.nodes_view()
        &&& new.dirty_view() == self.dirty_view()
    }

    /// Inserts a fresh node for `source` under `key`, or replaces the node of
    /// `key` in place, keeping its position; marks `key` dirty and returns the
    /// replaced node.
    pub fn insert(&mut self, key: K, source: S) -> (r: Option<PresentationNode<S, Su, Te, Im, Pa>>)
        requires
            old(self).wf(),
        ensures
            final(self).wf(),
            final(self).dirty_view() == mark_seq(old(self).dirty_view(), key),
            old(self).keys_view().contains(key) ==> {
                let i = old(self).row_of(key);
                &&& r == Some(old(self).nodes_view()[i])
                &&& final(self).keys_view() == old(self).keys_view()
                &&& final(self).nodes_view() == old(self).nodes_view().update(i, final(self).nodes_view()[i])
                &&& final(self).nodes_view()[i].is_fresh(source)
            },
            !old(self).keys_view().contains(key) ==> {
                &&& r is None
                &&& final(self).keys_view() == old(self).keys_view().push(key)
                &&& final(self).nodes_view().len() == old(self).nodes_view().len() + 1
                &&& final(self).nodes_view().drop_last() == old(self).nodes_view()
                &&& final(self).nodes_view().last().is_fresh(source)
            },
    {
        let mut node = PresentationNode::new(source);
        let replaced = match self.find(key) {
            Some(i) => {
                std::mem::swap(&mut node, &mut self.nodes[i]);
                Some(node)
            },
            None => {
                self.keys.push(key);
                self.nodes.push(node);
                proof {
                    assert forall|a: int, b: int| 0 <= a < b < self.keys@.len() implies self.keys@[a] != self.keys@[b] by {
                        if b == self.keys@.len() - 1 {
                            assert(old(self).keys@.contains(self.keys@[a]) ==> self.keys@[a] != key);
                            assert(old(self).keys@[a] == self.keys@[a]);
                        }
                    }
                    assert(self.nodes@.drop_last() == old(self).nodes@);
                }
                None
            },
        };
        self.mark_dirty(key);
        replaced
    }

    /// Removes the node of `key`, marking `key` dirty if it was live.
    pub fn remove(&mut self, key: K) -> (r: Option<PresentationNode<S, Su, Te, Im, Pa>>)
        requires
            old(self).wf(),
        ensures
            final(self).wf(),
            r is None <==> !old(self).keys_view().contains(key),
            r is None ==> old(self).same(*final(self)),
            r is Some ==> {
                let i = old(self).row_of(key);
                &&& r == Some(old(self).nodes_view()[i])
                &&& final(self).keys_view() == old(self).keys_view().remove(i)
                &&& final(self).nodes_view() == old(self).nodes_view().remove(i)
                &&& final(self).dirty_view() == mark_seq(old(self).dirty_view(), key)
            },
    {
        let i = match self.find(key) {
            Some(i) => i,
            None => return None,
        };
        let node = self.nodes.remove(i);
        self.keys.remove(i);
        proof {
            assert forall|a: int, b: int| 0 <= a < b < self.keys@.len() implies self.keys@[a] != self.keys@[b] by {
                let oa = if a < i { a } else { a + 1 };
                let ob = if b < i { b } else { b + 1 };
                assert(self.keys@[a] == old(self).keys@[oa]);
                assert(self.keys@[b] == old(self).keys@[ob]);
            }
        }
        self.mark_dirty(key);
        Some(node)
    }

    /// Removes every node, marking each previously live key dirty in
    /// insertion order.
    pub fn clear(&mut self)
        requires
            old(self).wf(),
        ensures
            final(self).wf(),
            final(self).keys_view() == Seq::<K>::empty(),
            final(self).nodes_view().len() == 0,
            final(self).dirty_view() == mark_all(old(self).dirty_view(), old(self).keys_view()),
    {
        let mut keys: Vec<K> = Vec::new();
        std::mem::swap(&mut keys, &mut self.keys);
        self.nodes.clear();
        let mut i: usize = 0;
        while i < keys.len()
            invariant
                i <= keys@.len(),
                keys@ == old(self).keys_view(),
                self.wf(),
                self.keys_view() == Seq::<K>::empty(),
                self.nodes_view().len() == 0,
                self.dirty_view() == mark_all(old(self).dirty_view(), keys@.take(i as int)),
            decreases keys.len() - i,
        {
            let key = keys[i];
            self.mark_dirty(key);
            proof {
                assert(keys@.take(i + 1).drop_last() == keys@.take(i as int));
                assert(keys@.take(i + 1).last() == key);
            }
            i += 1;
        }
        assert(keys@.take(keys@.len() as int) == keys@);
    }

    /// The node of `key`, if it is live.
    pub fn node(&self, key: K) -> (r: Option<&PresentationNode<S, Su, Te, Im, Pa>>)
        requires
            self.wf(),
        ensures
            r is None <==> !self.keys_view().contains(key),
            r matches Some(n) ==> *n == self.nodes_view()[self.row_of(key)],
    {
        match self.find(key) {
            Some(i) => Some(&self.nodes[i]),
            None => None,
        }
    }

    /// The node of `key` for changing, if it is live; marks `key` dirty.
    pub fn node_mut(&mut self, key: K) -> (r: Option<&mut PresentationNode<S, Su, Te, Im, Pa>>)
        requires
            old(self).wf(),
        ensures
            r is None <==> !old(self).keys_view().contains(key),
            r is None ==> old(self).same(*final(self)),
            r is Some ==> old(self).node_replaced(*final(self), key, *final(r.unwrap())) && *r.unwrap() == old(
                self,
            ).nodes_view()[old(self).row_of(key)],
    {
        match self.find(key) {
            Some(i) => {
                self.mark_dirty(key);
                Some(&mut self.nodes[i])
            },
            None => None,
        }
    }

    /// The live keys with their nodes, in insertion order.
    pub fn nodes(&self) -> (r: Vec<(K, &PresentationNode<S, Su, Te, Im, Pa>)>)
        requires
            self.wf(),
        ensures
            r@.len() == self.keys_view().len(),
            forall|i: int| 0 <= i < r@.len() ==> r@[i].0 == self.keys_view()[i] && *r@[i].1 == self.nodes_view()[i],
    {
        let mut r: Vec<(K, &PresentationNode<S, Su, Te, Im, Pa>)> = Vec::new();
        let mut i: usize = 0;
        while i < self.keys.len()
            invariant
                self.wf(),
                i <= self.keys@.len(),
                r@.len() == i,
                forall|j: int| 0 <= j < i ==> r@[j].0 == self.keys@[j] && *r@[j].1 == self.nodes@[j],
            decreases self.keys.len() - i,
        {
            r.push((self.keys[i], &self.nodes[i]));
            i += 1;
        }
        r
    }

    /// The first surface of the node of `key`, appending a default one when
    /// there is none; `None` when `key` is not live. Marks `key` dirty.
    pub fn surface_mut(&mut self, key: K) -> (r: Option<&mut Su>) where Su: Default
        requires
            old(self).wf(),
        ensures
            r is None <==> !old(self).keys_view().contains(key),
            r is None ==> old(self).same(*final(self)),
            r is Some ==> old(self).node_primitives_changed(*final(self), key) && changed_first(
                old(self).nodes_view()[old(self).row_of(key)].primitives_view(),
                final(self).nodes_view()[old(self).row_of(key)].primitives_view(),
                    PrimitiveKind::Surface,
                    Primitive::<Su, Te, Im, Pa>::Surface(*r.unwrap()),
                    Primitive::<Su, Te, Im, Pa>::Surface(*final(r.unwrap())),
                ),
    {
        match self.node_mut(key) {
            Some(node) => Some(node.surface_mut()),
            None => None,
        }
    }

    /// The first text of the node of `key`, appending a default one when
    /// there is none; `None` when `key` is not live. Marks `key` dirty.
    pub fn text_mut(&mut self, key: K) -> (r: Option<&mut Te>) where Te: Default
        requires
            old(self).wf(),
        ensures
            r is None <==> !old(self).keys_view().contains(key),
            r is None ==> old(self).same(*final(self)),
            r is Some ==> old(self).node_primitives_changed(*final(self), key) && changed_first(
                old(self).nodes_view()[old(self).row_of(key)].primitives_view(),
                final(self).nodes_view()[old(self).row_of(key)].primitives_view(),
                    PrimitiveKind::Text,
                    Primitive::<Su, Te, Im, Pa>::Text(*r.unwrap()),
                    Primitive::<Su, Te, Im, Pa>::Text(*final(r.unwrap())),
                ),
    {
        match self.node_mut(key) {
            Some(node) => Some(node.text_mut()),
            None => None,
        }
    }

    /// The first image of the node of `key` for changing; `None`, with
    /// nothing marked, when `key` is not live or its node has no image.
    /// Marks `key` dirty otherwise.
    pub fn image_mut(&mut self, key: K) -> (r: Option<&mut Im>)
        requires
            old(self).wf(),
        ensures
            r is None <==> !old(self).has_primitive(key, PrimitiveKind::Image),
            r is None ==> old(self).same(*final(self)),
            r is Some ==> old(self).node_primitives_changed(*final(self), key) && changed_first(
                old(self).nodes_view()[old(self).row_of(key)].primitives_view(),
                final(self).nodes_view()[old(self).row_of(key)].primitives_view(),
                    PrimitiveKind::Image,
                    Primitive::<Su, Te, Im, Pa>::Image(*r.unwrap()),
                    Primitive::<Su, Te, Im, Pa>::Image(*final(r.unwrap())),
                ),
    {
        let present = match self.find(key) {
            Some(i) => self.nodes[i].image().is_some(),
            None => false,
        };
        if !present {
            return None;
        }
        match self.node_mut(key) {
            Some(node) => node.image_mut(),
            None => None,
        }
    }

    /// Replaces the first image of the node of `key` with `image`, or appends
    /// it; `None` when `key` is not live. Marks `key` dirty.
    pub fn set_image(&mut self, key: K, image: Im) -> (r: Option<&mut Im>)
        requires
            old(self).wf(),
        ensures
            r is None <==> !old(self).keys_view().contains(key),
            r is None ==> old(self).same(*final(self)),
            r is Some ==> *r.unwrap() == image && old(self).node_primitives_changed(*final(self), key) && set_first(
                old(self).nodes_view()[old(self).row_of(key)].primitives_view(),
                final(self).nodes_view()[old(self).row_of(key)].primitives_view(),
                    PrimitiveKind::Image,
                    Primitive::<Su, Te, Im, Pa>::Image(*final(r.unwrap())),
                ),
    {
        match self.node_mut(key) {
            Some(node) => Some(node.set_image(image)),
            None => None,
        }
    }

    /// The first path of the node of `key` for changing; `None`, with
    /// nothing marked, when `key` is not live or its node has no path.
    /// Marks `key` dirty otherwise.
    pub fn path_mut(&mut self, key: K) -> (r: Option<&mut Pa>)
        requires
            old(self).wf(),
        ensures
            r is None <==> !old(self).has_primitive(key, PrimitiveKind::Path),
            r is None ==> old(self).same(*final(self)),
            r is Some ==> old(self).node_primitives_changed(*final(self), key) && changed_first(
                old(self).nodes_view()[old(self).row_of(key)].primitives_view(),
                final(self).nodes_view()[old(self).row_of(key)].primitives_view(),
                    PrimitiveKind::Path,
                    Primitive::<Su, Te, Im, Pa>::Path(*r.unwrap()),
                    Primitive::<Su, Te, Im, Pa>::Path(*final(r.unwrap())),
                ),
    {
        let present = match self.find(key) {
            Some(i) => self.nodes[i].path().is_some(),
            None => false,
        };
        if !present {
            return None;
        }
        match self.node_mut(key) {
            Some(node) => node.path_mut(),
            None => None,
        }
    }

    /// Replaces the first path of the node of `key` with `path`, or appends
    /// it; `None` when `key` is not live. Marks `key` dirty.
    pub fn set_path(&mut self, key: K, path: Pa) -> (r: Option<&mut Pa>)
        requires
            old(self).wf(),
        ensures
            r is None <==> !old(self).keys_view().contains(key),
            r is None ==> old(self).same(*final(self)),
            r is Some ==> *r.unwrap() == path && old(self).node_primitives_changed(*final(self), key) && set_first(
                old(self).nodes_view()[old(self).row_of(key)].primitives_view(),
                final(self).nodes_view()[old(self).row_of(key)].primitives_view(),
                    PrimitiveKind::Path,
                    Primitive::<Su, Te, Im, Pa>::Path(*final(r.unwrap())),
                ),
    {
        match self.node_mut(key) {
            Some(node) => Some(node.set_path(path)),
            None => None,
        }
    }

    /// The live keys, in insertion order.
    pub fn keys(&self) -> (r: Vec<K>)
        ensures
            r@ == self.keys_view(),
    {
        let mut r: Vec<K> = Vec::new();
        let mut i: usize = 0;
        while i < self.keys.len()
            invariant
                i <= self.keys@.len(),
                r@ == self.keys@.take(i as int),
            decreases self.keys.len() - i,
        {
            r.push(self.keys[i]);
            i += 1;
            assert(r@ == self.keys@.take(i as int));
        }
        assert(self.keys@.take(self.keys@.len() as int) == self.keys@);
        r
    }
}

impl<K: Key, S, Su, Te, Im, Pa> Default for PresentationStore<K, S, Su, Te, Im, Pa> {
    fn default() -> (s: Self)
        ensures
            s.wf(),
            s.keys_view() == Seq::<K>::empty(),
            s.dirty_view() == Seq::<K>::empty(),
    {
        Self::new()
    }
}

/// Inserting a key that is not live and then removing it leaves the live
/// keys and their nodes as they were.
pub proof fn lemma_insert_remove_roundtrip<K: Key, S, Su, Te, Im, Pa>(
    before: PresentationStore<K, S, Su, Te, Im, Pa>,
    inserted: PresentationStore<K, S, Su, Te, Im, Pa>,
    after: PresentationStore<K, S, Su, Te, Im, Pa>,
    key: K,
)
    requires
        before.wf(),
        !before.keys_view().contains(key),
        inserted.keys_view() == before.keys_view().push(key),
        inserted.nodes_view().drop_last() == before.nodes_view(),
        inserted.nodes_view().len() == before.nodes_view().len() + 1,
        after.keys_view() == inserted.keys_view().remove(inserted.row_of(key)),
        after.nodes_view() == inserted.nodes_view().remove(inserted.row_of(key)),
    ensures
        after.keys_view() == before.keys_view(),
        after.nodes_view() == before.nodes_view(),
{
    let ks = inserted.keys_view();
    let n = before.keys_view().len() as int;
    assert(ks[n] == key);
    let j = ks.index_of(key);
    if j != n {
        assert(0 <= j < ks.len() && ks[j] == key);
        assert(before.keys_view()[j] == key);
    }
    assert(after.keys_view() =~= before.keys_view());
    assert(after.nodes_view() =~= before.nodes_view());
}

} // verus!
