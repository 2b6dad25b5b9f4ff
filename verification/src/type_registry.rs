//! The runtime type registry.
//!
//! A registry maps a type-tag string to a codec capability: something
//! that encodes an application value into a `ZData` envelope, decodes it
//! back, and optionally detects whether a value is of its type. Codecs
//! state their behaviour in spec functions, and the registry's contracts
//! are exact relative to them. The registry is an injectable service
//! object; callers that share it across threads wrap it in a lock.

use vstd::prelude::*;

use crate::error::VmpError;
use crate::value::{DynValue, ValModel, key_index, lemma_key_index, str_eq};
use crate::zdata::{ZData, ZDataModel};

verus! {

broadcast use vstd::std_specs::vec::group_vec_axioms, vstd::seq::group_seq_axioms;

/// A codec capability: encode, decode, and an optional type detector.
///
/// The three executable methods are pinned to the implementor's own spec
/// functions, so everything the registry proves holds for any codec
/// whose implementation verifies against this trait.
pub trait TypeCodec: Sized {
    /// What the codec encodes a value to, or nothing when it fails.
    /// An implementor that leaves this default claims nothing of its
    /// encoder beyond what runs.
    open spec fn spec_encode(&self, v: ValModel) -> Option<ZDataModel> {
        None
    }

    /// What the codec decodes an envelope to, or nothing when it fails.
    open spec fn spec_decode(&self, z: ZDataModel) -> Option<ValModel> {
        None
    }

    /// Whether the codec carries a type detector.
    open spec fn spec_has_detector(&self) -> bool {
        false
    }

    /// Whether the detector recognises the value.
    open spec fn spec_matches(&self, v: ValModel) -> bool {
        false
    }

    /// Encodes a value into an envelope.
    fn encode(&self, value: &DynValue) -> (r: Result<ZData, VmpError>)
        ensures
            match r {
                Ok(z) => self.spec_encode(value.deep_view()) == Some(z.deep_view()),
                Err(_) => self.spec_encode(value.deep_view()) is None,
            },
    ;

    /// Decodes an envelope into a value.
    fn decode(&self, zdata: &ZData) -> (r: Result<DynValue, VmpError>)
        ensures
            match r {
                Ok(v) => self.spec_decode(zdata.deep_view()) == Some(v.deep_view()),
                Err(_) => self.spec_decode(zdata.deep_view()) is None,
            },
    ;

    /// Whether this codec has a type detector.
    fn has_detector(&self) -> (r: bool)
        ensures
            r == self.spec_has_detector(),
    ;

    /// Whether the detector recognises the value.
    fn matches(&self, value: &DynValue) -> (r: bool)
        ensures
            r == self.spec_matches(value.deep_view()),
    ;
}

/// One registration: a type tag and its codec.
pub struct TypeRegistration<C> {
    /// Type identifier (e.g. "datetime", "numpy.ndarray").
    pub ztype: String,
    /// The codec installed for the tag.
    pub codec: C,
}

/// The registry: an insertion-ordered mapping from tag to codec with
/// each tag present at most once.
pub struct TypeRegistry<C> {
    entries: Vec<TypeRegistration<C>>,
}

/// The models of a sequence of registrations, element by element.
pub open spec fn view_regs<C>(s: Seq<TypeRegistration<C>>) -> Seq<(Seq<char>, C)>
    decreases s.len(),
{
    if s.len() == 0 {
        Seq::empty()
    } else {
        view_regs(s.drop_last()).push((s.last().ztype@, s.last().codec))
    }
}

/// `view_regs` maps the sequence element by element.
pub broadcast proof fn lemma_view_regs<C>(s: Seq<TypeRegistration<C>>)
    ensures
        #[trigger] view_regs(s).len() == s.len(),
        forall|i: int| 0 <= i < s.len()
            ==> view_regs(s)[i] == (s[i].ztype@, s[i].codec),
    decreases s.len(),
{
    if s.len() > 0 {
        lemma_view_regs(s.drop_last());
    }
}

/// What scanning the registrations yields for a value: the first
/// registration whose detector recognises it and whose encoder
/// succeeds, in registry order.
pub open spec fn spec_try_encode<C: TypeCodec>(regs: Seq<(Seq<char>, C)>, v: ValModel)
    -> Option<ZDataModel>
    decreases regs.len(),
{
    if regs.len() == 0 {
        None
    } else {
        let c = regs.first().1;
        if c.spec_has_detector() && c.spec_matches(v) && c.spec_encode(v) is Some {
            c.spec_encode(v)
        } else {
            spec_try_encode(regs.drop_first(), v)
        }
    }
}

impl<C: TypeCodec> TypeRegistry<C> {
    /// The registered (tag, codec) pairs, in insertion order.
    pub closed spec fn regs(&self) -> Seq<(Seq<char>, C)> {
        view_regs(self.entries@)
    }

    /// Each tag occurs at most once.
    pub open spec fn wf(&self) -> bool {
        forall|i: int, j: int| 0 <= i < j < self.regs().len()
            ==> (#[trigger] self.regs()[i]).0 != (#[trigger] self.regs()[j]).0
    }

    /// The codec registered under the tag, if any.
    pub open spec fn lookup(&self, tag: Seq<char>) -> Option<C> {
        if key_index(self.regs(), tag) >= 0 {
            Some(self.regs()[key_index(self.regs(), tag)].1)
        } else {
            None
        }
    }

    /// Whether a tag is registered.
    pub open spec fn spec_is_registered(&self, tag: Seq<char>) -> bool {
        key_index(self.regs(), tag) >= 0
    }

    /// A new, empty registry.
    pub fn new() -> (r: Self)
        ensures
            r.regs() == Seq::<(Seq<char>, C)>::empty(),
            r.wf(),
    {
        let r = TypeRegistry { entries: Vec::new() };
        proof {
            assert(r.regs() =~= Seq::<(Seq<char>, C)>::empty());
        }
        r
    }

    /// Installs or replaces the codec for a tag. Replacement leaves the
    /// tag in its original position; a new tag is appended.
    pub fn register(&mut self, ztype: &str, codec: C)
        requires
            old(self).wf(),
        ensures
            final(self).wf(),
            final(self).spec_is_registered(ztype@),
            final(self).lookup(ztype@) == Some(codec),
            ({
                let prev = old(self).regs();
                let i = key_index(prev, ztype@);
                final(self).regs() == if i >= 0 {
                    prev.update(i, (ztype@, codec))
                } else {
                    prev.push((ztype@, codec))
                }
            }),
            forall|t: Seq<char>| t != ztype@
                ==> #[trigger] final(self).lookup(t) == old(self).lookup(t),
    {
        let ghost prev = self.regs();
        proof {
            lemma_view_regs(self.entries@);
            lemma_key_index(prev, ztype@);
        }
        let mut i: usize = 0;
        let n = self.entries.len();
        while i < n
            invariant
                n == self.entries@.len(),
                i <= n,
                self == old(self),
                prev == self.regs(),
                prev.len() == self.entries@.len(),
                forall|j: int| 0 <= j < self.entries@.len()
                    ==> #[trigger] prev[j] == (self.entries@[j].ztype@, self.entries@[j].codec),
                forall|j: int| 0 <= j < i as int ==> (#[trigger] prev[j]).0 != ztype@,
                forall|a: int, b: int| 0 <= a < b < prev.len()
                    ==> (#[trigger] prev[a]).0 != (#[trigger] prev[b]).0,
            decreases n - i,
        {
            let hit = str_eq(self.entries[i].ztype.as_str(), ztype);
            if hit {
                proof {
                    assert(key_index(prev, ztype@) == i as int) by {
                        lemma_key_index(prev, ztype@);
                        if key_index(prev, ztype@) < 0 {
                            assert(prev[i as int].0 != ztype@);
                            assert(false);
                        } else if key_index(prev, ztype@) < i as int {
                            assert(prev[key_index(prev, ztype@)].0 == ztype@);
                            assert(prev[key_index(prev, ztype@)].0 != ztype@);
                            assert(false);
                        } else if key_index(prev, ztype@) > i as int {
                            assert(prev[i as int].0 != ztype@);
                            assert(prev[i as int].0 == ztype@);
                            assert(false);
                        }
                    }
                }
                self.entries.set(i, TypeRegistration { ztype: ztype.to_owned(), codec });
                proof {
                    lemma_view_regs(self.entries@);
                    assert(self.regs() =~= prev.update(i as int, (ztype@, codec)));
                    let cur = self.regs();
                    assert(forall|j: int| 0 <= j < prev.len()
                        ==> (#[trigger] prev[j]).0 == (#[trigger] cur[j]).0);
                    lemma_key_index_keys_equal(prev, cur, ztype@);
                    assert forall|a: int, b: int| 0 <= a < b < cur.len()
                        implies (#[trigger] cur[a]).0 != (#[trigger] cur[b]).0 by {
                        assert(prev[a].0 != prev[b].0);
                        assert(cur[a].0 == prev[a].0);
                        assert(cur[b].0 == prev[b].0);
                    }
                    assert forall|t: Seq<char>| t != ztype@
                        implies #[trigger] self.lookup(t) == old(self).lookup(t) by {
                        lemma_key_index_keys_equal(prev, cur, t);
                        lemma_key_index(cur, t);
                        if key_index(cur, t) >= 0 {
                            assert(cur[key_index(cur, t)].0 == t);
                            assert(key_index(cur, t) != i as int);
                        }
                    }
                }
                return;
            }
            i = i + 1;
        }
        proof {
            lemma_key_index(prev, ztype@);
            if key_index(prev, ztype@) >= 0 {
                assert(prev[key_index(prev, ztype@)].0 == ztype@);
            }
        }
        self.entries.push(TypeRegistration { ztype: ztype.to_owned(), codec });
        proof {
            lemma_view_regs(self.entries@);
            lemma_view_regs(old(self).entries@);
            assert(self.regs() =~= prev.push((ztype@, codec)));
            let cur = self.regs();
            lemma_key_index(prev, ztype@);
            assert(key_index(prev, ztype@) < 0) by {
                if key_index(prev, ztype@) >= 0 {
                    assert(prev[key_index(prev, ztype@)].0 == ztype@);
                    assert(prev[key_index(prev, ztype@)].0 != ztype@);
                }
            }
            lemma_key_index_push(prev, (ztype@, codec), ztype@);
            assert(key_index(cur, ztype@) == prev.len() as int);
            assert forall|a: int, b: int| 0 <= a < b < cur.len()
                implies (#[trigger] cur[a]).0 != (#[trigger] cur[b]).0 by {
                if b < prev.len() {
                    assert(old(self).regs()[a] == prev[a]);
                    assert(old(self).regs()[b] == prev[b]);
                    assert(cur[a] == prev[a] && cur[b] == prev[b]);
                } else {
                    assert(cur[a] == prev[a]);
                    assert(prev[a].0 != ztype@);
                    assert(cur[b].0 == ztype@);
                }
            }
            assert forall|t: Seq<char>| t != ztype@
                implies #[trigger] self.lookup(t) == old(self).lookup(t) by {
                lemma_key_index_push(prev, (ztype@, codec), t);
                lemma_key_index(prev, t);
            }
        }
    }

    /// Finds the codec for a tag, shared lookup used by the public
    /// operations.
    fn find(&self, ztype: &str) -> (r: Option<&C>)
        ensures
            match r {
                Some(c) => self.lookup(ztype@) == Some(*c),
                None => self.lookup(ztype@) is None,
            },
    {
        let ghost m = self.regs();
        proof {
            lemma_view_regs(self.entries@);
        }
        let mut i: usize = 0;
        while i < self.entries.len()
            invariant
                i <= self.entries@.len(),
                m == self.regs(),
                m.len() == self.entries@.len(),
                forall|j: int| 0 <= j < self.entries@.len()
                    ==> #[trigger] m[j] == (self.entries@[j].ztype@, self.entries@[j].codec),
                forall|j: int| 0 <= j < i as int ==> (#[trigger] m[j]).0 != ztype@,
            decreases self.entries@.len() - i,
        {
            let entry = &self.entries[i];
            if str_eq(entry.ztype.as_str(), ztype) {
                proof {
                    assert(key_index(m, ztype@) == i as int) by {
                        lemma_key_index(m, ztype@);
                        if key_index(m, ztype@) == -1 {
                            assert(m[i as int].0 != ztype@);
                            assert(false);
                        } else if key_index(m, ztype@) < i as int {
                            assert(m[key_index(m, ztype@)].0 == ztype@);
                            assert(m[key_index(m, ztype@)].0 != ztype@);
                            assert(false);
                        } else if key_index(m, ztype@) > i as int {
                            assert(m[i as int].0 != ztype@);
                            assert(m[i as int].0 == ztype@);
                            assert(false);
                        }
                    }
                }
                return Some(&entry.codec);
            }
            i = i + 1;
        }
        proof {
            lemma_key_index(m, ztype@);
            if key_index(m, ztype@) >= 0 {
                assert(m[key_index(m, ztype@)].0 == ztype@);
            }
        }
        None
    }

    /// Encodes a value under a tag: fails with type-not-registered when
    /// the tag is unknown, else returns what the codec returns.
    pub fn encode(&self, ztype: &str, value: &DynValue) -> (r: Result<ZData, VmpError>)
        ensures
            match r {
                Ok(z) => self.lookup(ztype@) matches Some(c)
                    && c.spec_encode(value.deep_view()) == Some(z.deep_view()),
                Err(e) => {
                    ||| (self.lookup(ztype@) is None
                        && (e matches VmpError::TypeNotRegistered(t) && t@ == ztype@))
                    ||| (self.lookup(ztype@) matches Some(c)
                        && c.spec_encode(value.deep_view()) is None)
                },
            },
            !self.spec_is_registered(ztype@)
                ==> (r matches Err(e) && e is TypeNotRegistered),
    {
        match self.find(ztype) {
            Some(codec) => codec.encode(value),
            None => Err(VmpError::TypeNotRegistered(ztype.to_owned())),
        }
    }

    /// Decodes an envelope by its tag: fails with type-not-registered
    /// when the tag is unknown, else returns what the codec returns.
    pub fn decode(&self, zdata: &ZData) -> (r: Result<DynValue, VmpError>)
        ensures
            match r {
                Ok(v) => self.lookup(zdata.ztype@) matches Some(c)
                    && c.spec_decode(zdata.deep_view()) == Some(v.deep_view()),
                Err(e) => {
                    ||| (self.lookup(zdata.ztype@) is None
                        && (e matches VmpError::TypeNotRegistered(t) && t@ == zdata.ztype@))
                    ||| (self.lookup(zdata.ztype@) matches Some(c)
                        && c.spec_decode(zdata.deep_view()) is None)
                },
            },
            !self.spec_is_registered(zdata.ztype@)
                ==> (r matches Err(e) && e is TypeNotRegistered),
    {
        match self.find(zdata.ztype.as_str()) {
            Some(codec) => codec.decode(zdata),
            None => Err(VmpError::TypeNotRegistered(zdata.ztype.clone())),
        }
    }

    /// Whether a tag is registered.
    pub fn is_registered(&self, ztype: &str) -> (r: bool)
        ensures
            r == self.spec_is_registered(ztype@),
    {
        match self.find(ztype) {
            Some(_) => true,
            None => false,
        }
    }

    /// Tries every registration that carries a detector, in registry
    /// order: the first whose detector recognises the value and whose
    /// encoder succeeds yields the envelope; otherwise nothing.
    pub fn try_encode(&self, value: &DynValue) -> (r: Option<ZData>)
        ensures
            match r {
                Some(z) => spec_try_encode(self.regs(), value.deep_view())
                    == Some(z.deep_view()),
                None => spec_try_encode(self.regs(), value.deep_view()) is None,
            },
    {
        let ghost m = self.regs();
        let ghost v = value.deep_view();
        proof {
            lemma_view_regs(self.entries@);
            assert(m.skip(0) =~= m);
        }
        let mut i: usize = 0;
        while i < self.entries.len()
            invariant
                i <= self.entries@.len(),
                m == self.regs(),
                v == value.deep_view(),
                m.len() == self.entries@.len(),
                forall|j: int| 0 <= j < self.entries@.len()
                    ==> #[trigger] m[j] == (self.entries@[j].ztype@, self.entries@[j].codec),
                spec_try_encode(m, v) == spec_try_encode(m.skip(i as int), v),
            decreases self.entries@.len() - i,
        {
            let entry = &self.entries[i];
            proof {
                assert(m.skip(i as int).len() > 0);
                assert(m.skip(i as int).first() == m[i as int]);
                assert(m.skip(i as int).drop_first() =~= m.skip(i as int + 1));
            }
            if entry.codec.has_detector() && entry.codec.matches(value) {
                match entry.codec.encode(value) {
                    Ok(z) => {
                        proof {
                            assert(spec_try_encode(m.skip(i as int), v)
                                == Some(z.deep_view()));
                        }
                        return Some(z);
                    },
                    Err(_) => {},
                }
            }
            i = i + 1;
        }
        proof {
            assert(m.skip(m.len() as int).len() == 0);
        }
        None
    }

    /// All registered tags, in registry order.
    pub fn registered_types(&self) -> (r: Vec<String>)
        ensures
            r@.len() == self.regs().len(),
            forall|i: int| 0 <= i < r@.len()
                ==> (#[trigger] r@[i])@ == self.regs()[i].0,
    {
        let ghost m = self.regs();
        proof {
            lemma_view_regs(self.entries@);
        }
        let mut out: Vec<String> = Vec::new();
        let mut i: usize = 0;
        while i < self.entries.len()
            invariant
                i <= self.entries@.len(),
                m == self.regs(),
                m.len() == self.entries@.len(),
                forall|j: int| 0 <= j < self.entries@.len()
                    ==> #[trigger] m[j] == (self.entries@[j].ztype@, self.entries@[j].codec),
                out@.len() == i as int,
                forall|j: int| 0 <= j < i as int ==> (#[trigger] out@[j])@ == m[j].0,
            decreases self.entries@.len() - i,
        {
            out.push(self.entries[i].ztype.clone());
            i = i + 1;
        }
        out
    }
}

/// Sequences with equal keys elementwise have equal key indexes.
///
/// Shared by the registry and the correlation engine.
pub proof fn lemma_key_index_keys_equal<C>(a: Seq<(Seq<char>, C)>, b: Seq<(Seq<char>, C)>, t: Seq<char>)
    requires
        a.len() == b.len(),
        forall|j: int| 0 <= j < a.len() ==> (#[trigger] a[j]).0 == (#[trigger] b[j]).0,
    ensures
        key_index(a, t) == key_index(b, t),
    decreases a.len(),
{
    if a.len() > 0 {
        assert(a.first().0 == b.first().0);
        if a.first().0 != t {
            lemma_key_index_keys_equal(a.drop_first(), b.drop_first(), t);
            assert(forall|j: int| 0 <= j < a.drop_first().len()
                ==> #[trigger] a.drop_first()[j] == a[j + 1]);
            assert(forall|j: int| 0 <= j < b.drop_first().len()
                ==> #[trigger] b.drop_first()[j] == b[j + 1]);
        }
    }
}

/// How appending one pair changes the key index.
pub proof fn lemma_key_index_push<C>(a: Seq<(Seq<char>, C)>, x: (Seq<char>, C), t: Seq<char>)
    ensures
        key_index(a, t) >= 0 ==> key_index(a.push(x), t) == key_index(a, t),
        key_index(a, t) < 0 && x.0 == t ==> key_index(a.push(x), t) == a.len(),
        key_index(a, t) < 0 && x.0 != t ==> key_index(a.push(x), t) < 0,
    decreases a.len(),
{
    if a.len() == 0 {
        assert(a.push(x).first() == x);
        if x.0 != t {
            assert(a.push(x).drop_first() =~= Seq::<(Seq<char>, C)>::empty());
            assert(key_index(a.push(x).drop_first(), t) == -1);
            assert(key_index(a.push(x), t) == -1);
        }
    } else {
        assert(a.push(x).first() == a.first());
        if a.first().0 != t {
            assert(a.push(x).drop_first() =~= a.drop_first().push(x));
            lemma_key_index_push(a.drop_first(), x, t);
            let rp = key_index(a.drop_first().push(x), t);
            let rd = key_index(a.drop_first(), t);
            assert(key_index(a.push(x), t) == if rp < 0 { -1int } else { rp + 1 });
            assert(key_index(a, t) == if rd < 0 { -1int } else { rd + 1 });
        }
    }
}

} // verus!
