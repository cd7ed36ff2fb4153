//! Parameter sets: named lists of values from a scene description.

use vstd::prelude::*;
use vstd::slice::slice_to_vec;
use crate::geometry::{Normal3i, Point3i, Vector3i};
use crate::spectrum::{paired, Sample};

verus! {

/// A list of values and whether it has been looked up.
pub struct ParamSetItem<T> {
    pub values: Vec<T>,
    pub looked_up: bool,
}

impl<T> ParamSetItem<T> {
    /// The list `values`, not yet looked up.
    pub fn new(values: Vec<T>) -> (item: Self)
        ensures
            item.values == values,
            !item.looked_up,
    {
        ParamSetItem { values, looked_up: false }
    }
}

/// A name with its list of values.
pub struct ParamEntry<T> {
    pub name: String,
    pub item: ParamSetItem<T>,
}

/// Lists of values by name. No name stands twice.
pub struct ParamSetMap<T> {
    entries: Vec<ParamEntry<T>>,
}

impl<T> ParamSetMap<T> {
    /// No two entries have the same name.
    pub closed spec fn wf(&self) -> bool {
        forall|i: int, j: int|
            0 <= i < j < self.entries@.len() ==> (#[trigger] self.entries@[i]).name@ != (
            #[trigger] self.entries@[j]).name@
    }

    /// The name `name` has a list.
    pub closed spec fn has(&self, name: Seq<char>) -> bool {
        exists|i: int| 0 <= i < self.entries@.len() && (#[trigger] self.entries@[i]).name@ == name
    }

    /// The list of the name `name`, if it has one.
    pub closed spec fn lookup(&self, name: Seq<char>) -> Option<Seq<T>> {
        if self.has(name) {
            let i = choose|i: int|
                0 <= i < self.entries@.len() && (#[trigger] self.entries@[i]).name@ == name;
            Some(self.entries@[i].item.values@)
        } else {
            None
        }
    }

    /// No name has a list.
    pub open spec fn is_empty(&self) -> bool {
        forall|k: Seq<char>| (#[trigger] self.lookup(k)) is None
    }

    /// The list of a name is the list of the entry that carries the name.
    proof fn lemma_lookup_at(&self, i: int, name: Seq<char>)
        requires
            self.wf(),
            0 <= i < self.entries@.len(),
            self.entries@[i].name@ == name,
        ensures
            self.lookup(name) == Some(self.entries@[i].item.values@),
    {
        assert(self.has(name));
        let j = choose|j: int|
            0 <= j < self.entries@.len() && (#[trigger] self.entries@[j]).name@ == name;
        if i < j {
            assert(self.entries@[i].name@ != self.entries@[j].name@);
        } else if j < i {
            assert(self.entries@[j].name@ != self.entries@[i].name@);
        }
    }

    /// A map without names.
    pub fn new() -> (m: Self)
        ensures
            m.wf(),
            m.is_empty(),
    {
        let m = ParamSetMap { entries: Vec::new() };
        assert forall|k: Seq<char>| (#[trigger] m.lookup(k)) is None by {
            assert(!m.has(k));
        }
        m
    }

    /// The position of the entry with the name `key`, if there is one.
    fn index_of(&self, key: &String) -> (r: Option<usize>)
        ensures
            match r {
                Some(i) => i < self.entries@.len() && self.entries@[i as int].name@ == key@,
                None => !self.has(key@),
            },
    {
        let mut i: usize = 0;
        while i < self.entries.len()
            invariant
                i <= self.entries@.len(),
                forall|j: int| 0 <= j < i ==> (#[trigger] self.entries@[j]).name@ != key@,
            decreases self.entries@.len() - i,
        {
            if self.entries[i].name == *key {
                return Some(i);
            }
            i = i + 1;
        }
        None
    }

    /// Gives the name `name` the list `values`, in the place of the list that
    /// it had.
    pub fn insert(&mut self, name: &str, values: Vec<T>)
        requires
            old(self).wf(),
        ensures
            final(self).wf(),
            forall|k: Seq<char>| #[trigger]
                final(self).lookup(k) == if k == name@ {
                    Some(values@)
                } else {
                    old(self).lookup(k)
                },
    {
        let key = name.to_owned();
        let found = self.index_of(&key);
        let entry = ParamEntry { name: key, item: ParamSetItem::new(values) };
        match found {
            Some(i) => {
                self.entries[i] = entry;
            },
            None => {
                self.entries.push(entry);
            },
        }
        proof {
            let at: int = match found {
                Some(i) => i as int,
                None => old(self).entries@.len() as int,
            };
            assert(self.entries@[at].name@ == name@);
            assert forall|i: int, j: int| 0 <= i < j < self.entries@.len() implies (
            #[trigger] self.entries@[i]).name@ != (#[trigger] self.entries@[j]).name@ by {
                if i != at && j != at {
                    assert(self.entries@[i] == old(self).entries@[i]);
                    assert(self.entries@[j] == old(self).entries@[j]);
                } else if i == at {
                    if found is None {
                    } else {
                        assert(self.entries@[j] == old(self).entries@[j]);
                        assert(old(self).entries@[at].name@ != old(self).entries@[j].name@);
                    }
                } else {
                    assert(self.entries@[i] == old(self).entries@[i]);
                    if found is None {
                        assert(!old(self).has(name@));
                    } else {
                        assert(old(self).entries@[i].name@ != old(self).entries@[at].name@);
                    }
                }
            }
            assert forall|k: Seq<char>| #[trigger]
                self.lookup(k) == if k == name@ {
                    Some(values@)
                } else {
                    old(self).lookup(k)
                } by {
                if k == name@ {
                    self.lemma_lookup_at(at, k);
                } else if old(self).has(k) {
                    let j = choose|j: int|
                        0 <= j < old(self).entries@.len() && (#[trigger] old(self).entries@[j]).name@
                            == k;
                    old(self).lemma_lookup_at(j, k);
                    assert(self.entries@[j] == old(self).entries@[j]);
                    self.lemma_lookup_at(j, k);
                } else {
                    if self.has(k) {
                        let j = choose|j: int|
                            0 <= j < self.entries@.len() && (#[trigger] self.entries@[j]).name@ == k;
                        assert(j != at);
                        assert(old(self).entries@[j].name@ == k);
                    }
                }
            }
        }
    }

    /// Takes the name `name` out, and tells whether it had a list.
    pub fn remove(&mut self, name: &str) -> (had: bool)
        requires
            old(self).wf(),
        ensures
            final(self).wf(),
            had == old(self).lookup(name@).is_some(),
            forall|k: Seq<char>| #[trigger]
                final(self).lookup(k) == if k == name@ {
                    None
                } else {
                    old(self).lookup(k)
                },
    {
        let key = name.to_owned();
        match self.index_of(&key) {
            Some(i) => {
                self.entries.remove(i);
                proof {
                    let at = i as int;
                    let before = old(self).entries@;
                    assert forall|a: int| 0 <= a < self.entries@.len() implies #[trigger] self.entries@[a]
                        == before[if a < at {
                        a
                    } else {
                        a + 1
                    }] by {}
                    assert forall|a: int, b: int| 0 <= a < b < self.entries@.len() implies (
                    #[trigger] self.entries@[a]).name@ != (#[trigger] self.entries@[b]).name@ by {
                        let sa = if a < at {
                            a
                        } else {
                            a + 1
                        };
                        let sb = if b < at {
                            b
                        } else {
                            b + 1
                        };
                        assert(before[sa].name@ != before[sb].name@);
                    }
                    old(self).lemma_lookup_at(at, name@);
                    assert forall|k: Seq<char>| #[trigger]
                        self.lookup(k) == if k == name@ {
                            None
                        } else {
                            old(self).lookup(k)
                        } by {
                        if self.has(k) {
                            let a = choose|a: int|
                                0 <= a < self.entries@.len() && (#[trigger] self.entries@[a]).name@ == k;
                            let sa = if a < at {
                                a
                            } else {
                                a + 1
                            };
                            assert(before[sa].name@ == k);
                            if sa < at {
                                assert(before[sa].name@ != before[at].name@);
                            } else {
                                assert(before[at].name@ != before[sa].name@);
                            }
                            self.lemma_lookup_at(a, k);
                            old(self).lemma_lookup_at(sa, k);
                        } else if k != name@ && old(self).has(k) {
                            let j = choose|j: int|
                                0 <= j < before.len() && (#[trigger] before[j]).name@ == k;
                            let a = if j < at {
                                j
                            } else {
                                j - 1
                            };
                            assert(self.entries@[a].name@ == k);
                        }
                    }
                }
                true
            },
            None => false,
        }
    }

    /// The list of the name `name`, if it has one.
    pub fn get(&self, name: &str) -> (r: Option<&Vec<T>>)
        requires
            self.wf(),
        ensures
            match r {
                Some(v) => self.lookup(name@) == Some(v@),
                None => self.lookup(name@) is None,
            },
    {
        let key = name.to_owned();
        match self.index_of(&key) {
            Some(i) => {
                proof {
                    self.lemma_lookup_at(i as int, name@);
                }
                Some(&self.entries[i].item.values)
            },
            None => None,
        }
    }

    /// Takes all names out.
    pub fn clear(&mut self)
        ensures
            final(self).wf(),
            final(self).is_empty(),
    {
        self.entries.clear();
        assert forall|k: Seq<char>| (#[trigger] self.lookup(k)) is None by {
            assert(!self.has(k));
        }
    }
}

impl<T: Copy> ParamSetMap<T> {
    /// Gives the name `name` the values of `values`.
    pub fn add(&mut self, name: &str, values: &[T])
        requires
            old(self).wf(),
        ensures
            final(self).wf(),
            forall|k: Seq<char>| #[trigger]
                final(self).lookup(k) == if k == name@ {
                    Some(values@)
                } else {
                    old(self).lookup(k)
                },
    {
        self.insert(name, slice_to_vec(values));
    }

    /// The single value of the name `name`; `default` where the name has no
    /// list or a list of another length than one.
    pub fn find_one(&self, name: &str, default: T) -> (r: T)
        requires
            self.wf(),
        ensures
            r == match self.lookup(name@) {
                Some(v) => if v.len() == 1 {
                    v[0]
                } else {
                    default
                },
                None => default,
            },
    {
        match self.get(name) {
            Some(v) => {
                if v.len() == 1 {
                    v[0]
                } else {
                    default
                }
            },
            None => default,
        }
    }

    /// The values of the name `name`; none where the name has no list.
    pub fn find(&self, name: &str) -> (r: Vec<T>)
        requires
            self.wf(),
        ensures
            r@ == match self.lookup(name@) {
                Some(v) => v,
                None => Seq::empty(),
            },
    {
        match self.get(name) {
            Some(v) => slice_to_vec(v.as_slice()),
            None => Vec::new(),
        }
    }
}

/// A spectrum as a scene description gives it.
#[derive(Clone, Copy, Debug, PartialEq, Eq, Structural)]
pub enum SpectrumParam {
    /// By red, green and blue.
    Rgb { r: i64, g: i64, b: i64 },
    /// By the coordinates X, Y and Z.
    Xyz { x: i64, y: i64, z: i64 },
    /// The spectrum of a blackbody at a temperature, scaled.
    Blackbody { temperature: i64, scale: i64 },
    /// By samples: the list at position `series` of the set's lists of
    /// samples.
    Sampled { series: usize },
    /// Zero everywhere.
    Black,
}

/// The spectra that a flat list of numbers gives by red, green and blue.
pub open spec fn rgb_spectra(values: Seq<i64>) -> Seq<SpectrumParam> {
    Seq::new(
        values.len() / 3,
        |i: int| SpectrumParam::Rgb { r: values[3 * i], g: values[3 * i + 1], b: values[3 * i + 2] },
    )
}

/// The spectra that a flat list of numbers gives by X, Y and Z.
pub open spec fn xyz_spectra(values: Seq<i64>) -> Seq<SpectrumParam> {
    Seq::new(
        values.len() / 3,
        |i: int| SpectrumParam::Xyz { x: values[3 * i], y: values[3 * i + 1], z: values[3 * i + 2] },
    )
}

/// The blackbody spectra that a flat list of temperatures and scales gives.
pub open spec fn blackbody_spectra(values: Seq<i64>) -> Seq<SpectrumParam> {
    Seq::new(
        values.len() / 2,
        |i: int| SpectrumParam::Blackbody { temperature: values[2 * i], scale: values[2 * i + 1] },
    )
}

/// The spectra of files: for each path that could not be resolved, black; for
/// each resolved path that has a spectrum in `cache`, that spectrum; and
/// nothing for any other path.
pub open spec fn spectra_of_files(
    cache: &ParamSetMap<SpectrumParam>,
    resolved: Seq<Option<String>>,
) -> Seq<SpectrumParam>
    decreases resolved.len(),
{
    if resolved.len() == 0 {
        Seq::empty()
    } else {
        let before = spectra_of_files(cache, resolved.drop_last());
        match resolved.last() {
            None => before.push(SpectrumParam::Black),
            Some(path) => match cache.lookup(path@) {
                Some(v) => if v.len() > 0 {
                    before.push(v[0])
                } else {
                    before
                },
                None => before,
            },
        }
    }
}

/// The parameters of a scene description, by kind and name.
pub struct ParamSet {
    pub bools: ParamSetMap<bool>,
    pub ints: ParamSetMap<i32>,
    pub floats: ParamSetMap<i64>,
    pub point2fs: ParamSetMap<(i64, i64)>,
    pub vector2fs: ParamSetMap<(i64, i64)>,
    pub point3fs: ParamSetMap<Point3i>,
    pub vector3fs: ParamSetMap<Vector3i>,
    pub normal3fs: ParamSetMap<Normal3i>,
    pub spectra: ParamSetMap<SpectrumParam>,
    pub strings: ParamSetMap<String>,
    pub textures: ParamSetMap<String>,
    /// The spectra of files that were read before, by path.
    pub cached_spectra: ParamSetMap<SpectrumParam>,
    /// The lists of samples of the sampled spectra.
    pub series: Vec<Vec<Sample>>,
}

impl ParamSet {
    /// In no kind does a name stand twice.
    pub open spec fn wf(&self) -> bool {
        &&& self.bools.wf()
        &&& self.ints.wf()
        &&& self.floats.wf()
        &&& self.point2fs.wf()
        &&& self.vector2fs.wf()
        &&& self.point3fs.wf()
        &&& self.vector3fs.wf()
        &&& self.normal3fs.wf()
        &&& self.spectra.wf()
        &&& self.strings.wf()
        &&& self.textures.wf()
        &&& self.cached_spectra.wf()
    }

    /// No kind has a name, and there are no lists of samples.
    pub open spec fn is_empty(&self) -> bool {
        &&& self.bools.is_empty()
        &&& self.ints.is_empty()
        &&& self.floats.is_empty()
        &&& self.point2fs.is_empty()
        &&& self.vector2fs.is_empty()
        &&& self.point3fs.is_empty()
        &&& self.vector3fs.is_empty()
        &&& self.normal3fs.is_empty()
        &&& self.spectra.is_empty()
        &&& self.strings.is_empty()
        &&& self.textures.is_empty()
        &&& self.cached_spectra.is_empty()
        &&& self.series@.len() == 0
    }

    /// `self` is `before` but for its spectra.
    pub open spec fn same_but_spectra(&self, before: &ParamSet) -> bool {
        &&& self.bools == before.bools
        &&& self.ints == before.ints
        &&& self.floats == before.floats
        &&& self.point2fs == before.point2fs
        &&& self.vector2fs == before.vector2fs
        &&& self.point3fs == before.point3fs
        &&& self.vector3fs == before.vector3fs
        &&& self.normal3fs == before.normal3fs
        &&& self.strings == before.strings
        &&& self.textures == before.textures
        &&& self.cached_spectra == before.cached_spectra
    }

    /// The spectra of `self` are those of `before`, but that the name `name`
    /// has the list `list`.
    pub open spec fn spectra_set(&self, before: &ParamSet, name: Seq<char>, list: Seq<SpectrumParam>) -> bool {
        forall|k: Seq<char>| #[trigger]
            self.spectra.lookup(k) == if k == name {
                Some(list)
            } else {
                before.spectra.lookup(k)
            }
    }

    /// An empty parameter set.
    pub fn new() -> (set: Self)
        ensures
            set.wf(),
            set.is_empty(),
    {
        ParamSet {
            bools: ParamSetMap::new(),
            ints: ParamSetMap::new(),
            floats: ParamSetMap::new(),
            point2fs: ParamSetMap::new(),
            vector2fs: ParamSetMap::new(),
            point3fs: ParamSetMap::new(),
            vector3fs: ParamSetMap::new(),
            normal3fs: ParamSetMap::new(),
            spectra: ParamSetMap::new(),
            strings: ParamSetMap::new(),
            textures: ParamSetMap::new(),
            cached_spectra: ParamSetMap::new(),
            series: Vec::new(),
        }
    }

    /// Gives the name `name` the spectra that `values` holds by red, green
    /// and blue.
    pub fn add_rgb_spectrum(&mut self, name: &str, values: &[i64])
        requires
            old(self).wf(),
            values@.len() % 3 == 0,
        ensures
            final(self).wf(),
            final(self).same_but_spectra(old(self)),
            final(self).series == old(self).series,
            final(self).spectra_set(old(self), name@, rgb_spectra(values@)),
    {
        let n = values.len();
        let mut list: Vec<SpectrumParam> = Vec::new();
        let mut i: usize = 0;
        while i < n
            invariant
                n == values@.len(),
                n % 3 == 0,
                i % 3 == 0,
                i <= n,
                list@.len() == i / 3,
                forall|k: int|
                    0 <= k < list@.len() ==> #[trigger] list@[k] == (SpectrumParam::Rgb {
                        r: values@[3 * k],
                        g: values@[3 * k + 1],
                        b: values@[3 * k + 2],
                    }),
            decreases n - i,
        {
            list.push(SpectrumParam::Rgb { r: values[i], g: values[i + 1], b: values[i + 2] });
            i = i + 3;
        }
        assert(list@ =~= rgb_spectra(values@));
        self.spectra.insert(name, list);
    }

    /// Gives the name `name` the spectra that `values` holds by X, Y and Z.
    pub fn add_xyz_spectrum(&mut self, name: &str, values: &[i64])
        requires
            old(self).wf(),
            values@.len() % 3 == 0,
        ensures
            final(self).wf(),
            final(self).same_but_spectra(old(self)),
            final(self).series == old(self).series,
            final(self).spectra_set(old(self), name@, xyz_spectra(values@)),
    {
        let n = values.len();
        let mut list: Vec<SpectrumParam> = Vec::new();
        let mut i: usize = 0;
        while i < n
            invariant
                n == values@.len(),
                n % 3 == 0,
                i % 3 == 0,
                i <= n,
                list@.len() == i / 3,
                forall|k: int|
                    0 <= k < list@.len() ==> #[trigger] list@[k] == (SpectrumParam::Xyz {
                        x: values@[3 * k],
                        y: values@[3 * k + 1],
                        z: values@[3 * k + 2],
                    }),
            decreases n - i,
        {
            list.push(SpectrumParam::Xyz { x: values[i], y: values[i + 1], z: values[i + 2] });
            i = i + 3;
        }
        assert(list@ =~= xyz_spectra(values@));
        self.spectra.insert(name, list);
    }

    /// Gives the name `name` the blackbody spectra that `values` holds by
    /// temperature and scale.
    pub fn add_blackbody_spectrum(&mut self, name: &str, values: &[i64])
        requires
            old(self).wf(),
            values@.len() % 2 == 0,
        ensures
            final(self).wf(),
            final(self).same_but_spectra(old(self)),
            final(self).series == old(self).series,
            final(self).spectra_set(old(self), name@, blackbody_spectra(values@)),
    {
        let n = values.len();
        let mut list: Vec<SpectrumParam> = Vec::new();
        let mut i: usize = 0;
        while i < n
            invariant
                n == values@.len(),
                n % 2 == 0,
                i % 2 == 0,
                i <= n,
                list@.len() == i / 2,
                forall|k: int|
                    0 <= k < list@.len() ==> #[trigger] list@[k] == (SpectrumParam::Blackbody {
                        temperature: values@[2 * k],
                        scale: values@[2 * k + 1],
                    }),
            decreases n - i,
        {
            list.push(SpectrumParam::Blackbody { temperature: values[i], scale: values[i + 1] });
            i = i + 2;
        }
        assert(list@ =~= blackbody_spectra(values@));
        self.spectra.insert(name, list);
    }

    /// Gives the name `name` the one spectrum whose samples `values` holds,
    /// wavelength and value in turn, and keeps the samples as a new list.
    pub fn add_sampled_spectrum(&mut self, name: &str, values: &[i64])
        requires
            old(self).wf(),
        ensures
            final(self).wf(),
            final(self).same_but_spectra(old(self)),
            final(self).series@.len() == old(self).series@.len() + 1,
            final(self).series@.last()@ == paired(values@),
            forall|i: int|
                0 <= i < old(self).series@.len() ==> #[trigger] final(self).series@[i] == old(
                    self,
                ).series@[i],
            final(self).spectra_set(
                old(self),
                name@,
                seq![SpectrumParam::Sampled { series: old(self).series@.len() as usize }],
            ),
    {
        let samples = Sample::list(values);
        let at = self.series.len();
        self.series.push(samples);
        let mut list: Vec<SpectrumParam> = Vec::new();
        list.push(SpectrumParam::Sampled { series: at });
        assert(list@ =~= seq![SpectrumParam::Sampled { series: at }]);
        self.spectra.insert(name, list);
    }

    /// Gives the name `name` the spectra of files, as `spectra_of_files`
    /// says. `resolved` holds for each file its resolved path, or nothing
    /// where the path could not be resolved.
    pub fn add_sampled_spectrum_files(&mut self, name: &str, resolved: &Vec<Option<String>>)
        requires
            old(self).wf(),
        ensures
            final(self).wf(),
            final(self).same_but_spectra(old(self)),
            final(self).series == old(self).series,
            final(self).spectra_set(
                old(self),
                name@,
                spectra_of_files(&old(self).cached_spectra, resolved@),
            ),
    {
        let mut list: Vec<SpectrumParam> = Vec::new();
        let mut i: usize = 0;
        while i < resolved.len()
            invariant
                i <= resolved@.len(),
                *self == *old(self),
                self.wf(),
                list@ == spectra_of_files(&self.cached_spectra, resolved@.take(i as int)),
            decreases resolved@.len() - i,
        {
            proof {
                let next = resolved@.take(i + 1);
                assert(next.drop_last() =~= resolved@.take(i as int));
                assert(next.last() == resolved@[i as int]);
            }
            match &resolved[i] {
                Some(path) => {
                    match self.cached_spectra.get(path.as_str()) {
                        Some(v) => {
                            if v.len() > 0 {
                                list.push(v[0]);
                            }
                        },
                        None => {},
                    }
                },
                None => {
                    list.push(SpectrumParam::Black);
                },
            }
            i = i + 1;
        }
        assert(resolved@.take(resolved@.len() as int) =~= resolved@);
        self.spectra.insert(name, list);
    }

    /// The single string of the name `name`; `default` where the name has no
    /// list of strings or a list of another length than one.
    pub fn find_one_string(&self, name: &str, default: String) -> (r: String)
        requires
            self.wf(),
        ensures
            r == match self.strings.lookup(name@) {
                Some(v) => if v.len() == 1 {
                    v[0]
                } else {
                    default
                },
                None => default,
            },
    {
        match self.strings.get(name) {
            Some(v) => {
                if v.len() == 1 {
                    v[0].clone()
                } else {
                    default
                }
            },
            None => default,
        }
    }

    /// The file name that the name `name` gives, as the description has it;
    /// `default` where the name gives no single string or an empty one.
    pub fn find_one_filename(&self, name: &str, default: String) -> (r: String)
        requires
            self.wf(),
        ensures
            r == match self.strings.lookup(name@) {
                Some(v) => if v.len() == 1 && v[0]@.len() > 0 {
                    v[0]
                } else {
                    default
                },
                None => default,
            },
    {
        let filename = self.find_one_string(name, String::new());
        if filename.as_str().is_empty() {
            default
        } else {
            filename
        }
    }

    /// Takes everything out.
    pub fn clear(&mut self)
        ensures
            final(self).wf(),
            final(self).is_empty(),
    {
        self.bools.clear();
        self.ints.clear();
        self.floats.clear();
        self.point2fs.clear();
        self.vector2fs.clear();
        self.point3fs.clear();
        self.vector3fs.clear();
        self.normal3fs.clear();
        self.spectra.clear();
        self.strings.clear();
        self.textures.clear();
        self.cached_spectra.clear();
        self.series.clear();
    }
}

} // verus!
