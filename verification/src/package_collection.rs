//! A collection of the packages found in a cache directory.
//!
//! A package `X` has the header table of contents `H.X.toc`; its name may
//! end with a localization suffix (`_de`, `_fr`, ...) when it holds the
//! assets of one language.

use vstd::prelude::*;
use vstd::string::{StringExecFns, StrSliceExecFns};

use crate::text::{ends_with, spec_ends_with, spec_starts_with, starts_with};

verus! {

/// Supported localization suffixes.
pub const LOCALIZATION_SUFFIXES: [&'static str; 14] = [
    "_en",
    "_de",
    "_fr",
    "_it",
    "_es",
    "_ja",
    "_ko",
    "_pl",
    "_pt",
    "_ru",
    "_tr",
    "_uk",
    "_zh",
    "_xx",
];

/// The localization suffix at index `i`.
pub open spec fn suffix_at(i: int) -> Seq<char> {
    LOCALIZATION_SUFFIXES@[i]@
}

/// Whether `name` ends with one of the suffixes from index `i` on.
pub open spec fn ends_with_suffix_from(name: Seq<char>, i: int) -> bool
    decreases 14 - i,
{
    if i < 0 || i >= 14 {
        false
    } else {
        spec_ends_with(name, suffix_at(i)) || ends_with_suffix_from(name, i + 1)
    }
}

/// Whether `name` ends with a localization suffix.
pub open spec fn spec_is_localized(name: Seq<char>) -> bool {
    ends_with_suffix_from(name, 0)
}

/// `name` without the first of the suffixes, from index `i` on, that ends
/// it; `name` itself when none does.
pub open spec fn base_name_from(name: Seq<char>, i: int) -> Seq<char>
    decreases 14 - i,
{
    if i < 0 || i >= 14 {
        name
    } else if spec_ends_with(name, suffix_at(i)) {
        name.subrange(0, name.len() - suffix_at(i).len())
    } else {
        base_name_from(name, i + 1)
    }
}

/// `name` without its localization suffix.
pub open spec fn spec_base_package_name(name: Seq<char>) -> Seq<char> {
    base_name_from(name, 0)
}

/// The packages named in `entries`, a later entry replacing an earlier one
/// of the same name.
pub open spec fn entries_map<T>(entries: Seq<(Seq<char>, T)>) -> Map<Seq<char>, T>
    decreases entries.len(),
{
    if entries.len() == 0 {
        Map::empty()
    } else {
        entries_map(entries.drop_last()).insert(entries.last().0, entries.last().1)
    }
}

/// Whether no two entries have the same name.
pub open spec fn distinct_names<T>(entries: Seq<(Seq<char>, T)>) -> bool {
    forall|i: int, j: int|
        0 <= i < entries.len() && 0 <= j < entries.len() && i != j ==> #[trigger] entries[i].0
            != #[trigger] entries[j].0
}

proof fn lemma_entries_map<T>(entries: Seq<(Seq<char>, T)>)
    requires
        distinct_names(entries),
    ensures
        forall|k: Seq<char>| #[trigger]
            entries_map(entries).contains_key(k) <==> exists|i: int|
                0 <= i < entries.len() && #[trigger] entries[i].0 == k,
        forall|i: int|
            0 <= i < entries.len() ==> #[trigger] entries_map(entries)[entries[i].0]
                == entries[i].1,
    decreases entries.len(),
{
    if entries.len() > 0 {
        let prefix = entries.drop_last();
        assert(distinct_names(prefix)) by {
            assert forall|i: int, j: int|
                0 <= i < prefix.len() && 0 <= j < prefix.len() && i != j implies #[trigger] prefix[i].0
                != #[trigger] prefix[j].0 by {
                assert(prefix[i] == entries[i] && prefix[j] == entries[j]);
            }
        }
        lemma_entries_map(prefix);
        let m = entries_map(entries);
        assert forall|k: Seq<char>| #[trigger]
            m.contains_key(k) implies exists|i: int|
                0 <= i < entries.len() && #[trigger] entries[i].0 == k by {
            if k == entries.last().0 {
                assert(entries[entries.len() - 1].0 == k);
            } else {
                assert(entries_map(prefix).contains_key(k));
                let i = choose|i: int| 0 <= i < prefix.len() && #[trigger] prefix[i].0 == k;
                assert(prefix[i] == entries[i]);
                assert(entries[i].0 == k);
            }
        }
        assert forall|k: Seq<char>|
            (exists|i: int| 0 <= i < entries.len() && #[trigger] entries[i].0 == k) implies #[trigger]
            m.contains_key(k) by {
            let i = choose|i: int| 0 <= i < entries.len() && #[trigger] entries[i].0 == k;
            if i < entries.len() - 1 {
                assert(prefix[i] == entries[i]);
                assert(prefix[i].0 == k);
                assert(entries_map(prefix).contains_key(k));
            } else {
                assert(entries.last() == entries[i]);
            }
        }
        assert forall|i: int| 0 <= i < entries.len() implies #[trigger] m[entries[i].0]
            == entries[i].1 by {
            if i < entries.len() - 1 {
                assert(prefix[i] == entries[i]);
                assert(entries[i].0 != entries[entries.len() - 1].0);
                assert(entries_map(prefix)[prefix[i].0] == prefix[i].1);
            } else {
                assert(entries.last() == entries[i]);
            }
        }
    }
}

proof fn lemma_entries_map_set<T>(entries: Seq<(Seq<char>, T)>, i: int)
    requires
        distinct_names(entries),
        0 <= i < entries.len(),
    ensures
        forall|v: T| #[trigger]
            entries_map(entries.update(i, (entries[i].0, v))) == entries_map(entries).insert(
                entries[i].0,
                v,
            ),
{
    assert forall|v: T| #[trigger]
        entries_map(entries.update(i, (entries[i].0, v))) == entries_map(entries).insert(
            entries[i].0,
            v,
        ) by {
        let updated = entries.update(i, (entries[i].0, v));
        let key = entries[i].0;
        assert(distinct_names(updated)) by {
            assert forall|a: int, b: int|
                0 <= a < updated.len() && 0 <= b < updated.len() && a != b implies #[trigger] updated[a].0
                != #[trigger] updated[b].0 by {
                assert(entries[a].0 != entries[b].0);
            }
        }
        lemma_entries_map(entries);
        lemma_entries_map(updated);
        assert forall|k: Seq<char>| #[trigger] entries_map(updated).contains_key(k)
            <==> entries_map(entries).insert(key, v).contains_key(k) by {
            if exists|j: int| 0 <= j < entries.len() && #[trigger] entries[j].0 == k {
                let j = choose|j: int| 0 <= j < entries.len() && #[trigger] entries[j].0 == k;
                assert(updated[j].0 == k);
            }
            if exists|j: int| 0 <= j < updated.len() && #[trigger] updated[j].0 == k {
                let j = choose|j: int| 0 <= j < updated.len() && #[trigger] updated[j].0 == k;
                assert(entries[j].0 == k);
            }
        }
        assert forall|k: Seq<char>| #[trigger] entries_map(updated).contains_key(k) implies
            entries_map(updated)[k] == entries_map(entries).insert(key, v)[k] by {
            let j = choose|j: int| 0 <= j < updated.len() && #[trigger] updated[j].0 == k;
            assert(entries_map(updated)[updated[j].0] == updated[j].1);
            if j != i {
                assert(entries[j].0 == k);
                assert(entries_map(entries)[entries[j].0] == entries[j].1);
            }
        }
        assert(entries_map(updated) =~= entries_map(entries).insert(key, v));
    }
}

proof fn lemma_entries_map_remove<T>(entries: Seq<(Seq<char>, T)>, i: int)
    requires
        distinct_names(entries),
        0 <= i < entries.len(),
    ensures
        distinct_names(entries.remove(i)),
        entries_map(entries.remove(i)) == entries_map(entries).remove(entries[i].0),
        entries_map(entries).contains_key(entries[i].0),
        entries_map(entries)[entries[i].0] == entries[i].1,
{
    let rest = entries.remove(i);
    let key = entries[i].0;
    assert(distinct_names(rest)) by {
        assert forall|a: int, b: int|
            0 <= a < rest.len() && 0 <= b < rest.len() && a != b implies #[trigger] rest[a].0
            != #[trigger] rest[b].0 by {
            let a2 = if a < i { a } else { a + 1 };
            let b2 = if b < i { b } else { b + 1 };
            assert(rest[a] == entries[a2] && rest[b] == entries[b2]);
        }
    }
    lemma_entries_map(entries);
    lemma_entries_map(rest);
    assert forall|k: Seq<char>| #[trigger] entries_map(rest).contains_key(k)
        <==> entries_map(entries).remove(key).contains_key(k) by {
        if exists|j: int| 0 <= j < entries.len() && #[trigger] entries[j].0 == k {
            let j = choose|j: int| 0 <= j < entries.len() && #[trigger] entries[j].0 == k;
            if j < i {
                assert(rest[j] == entries[j]);
            } else if j > i {
                assert(rest[j - 1] == entries[j]);
            }
        }
        if exists|j: int| 0 <= j < rest.len() && #[trigger] rest[j].0 == k {
            let j = choose|j: int| 0 <= j < rest.len() && #[trigger] rest[j].0 == k;
            let j2 = if j < i { j } else { j + 1 };
            assert(rest[j] == entries[j2]);
            assert(entries[j2].0 != entries[i].0);
        }
    }
    assert forall|k: Seq<char>| #[trigger] entries_map(rest).contains_key(k) implies
        entries_map(rest)[k] == entries_map(entries).remove(key)[k] by {
        let j = choose|j: int| 0 <= j < rest.len() && #[trigger] rest[j].0 == k;
        let j2 = if j < i { j } else { j + 1 };
        assert(rest[j] == entries[j2]);
        assert(entries_map(rest)[rest[j].0] == rest[j].1);
        assert(entries_map(entries)[entries[j2].0] == entries[j2].1);
    }
    assert(entries_map(rest) =~= entries_map(entries).remove(key));
}

/// What a package collection holds.
pub struct PackageCollectionView<T> {
    pub directory: Seq<char>,
    pub is_post_ensmallening: bool,
    pub packages: Map<Seq<char>, T>,
}

/// A collection of packages, by name: the name of each package is stored
/// at the same index as the package.
pub struct PackageCollection<T> {
    directory: String,
    is_post_ensmallening: bool,
    names: Vec<String>,
    packages: Vec<T>,
}

/// The names and packages stored in a collection, name by name.
pub open spec fn collection_entries<T>(names: Seq<String>, packages: Seq<T>) -> Seq<
    (Seq<char>, T),
> {
    Seq::new(names.len(), |i: int| (names[i]@, packages[i]))
}

impl<T> View for PackageCollection<T> {
    type V = PackageCollectionView<T>;

    closed spec fn view(&self) -> PackageCollectionView<T> {
        PackageCollectionView {
            directory: self.directory@,
            is_post_ensmallening: self.is_post_ensmallening,
            packages: entries_map(collection_entries(self.names@, self.packages@)),
        }
    }
}

impl<T> PackageCollection<T> {
    /// The collection's invariant: one package per name, and no two names
    /// alike.
    #[verifier::type_invariant]
    spec fn wf(&self) -> bool {
        &&& self.names@.len() == self.packages@.len()
        &&& forall|i: int, j: int|
            0 <= i < self.names@.len() && 0 <= j < self.names@.len() && i != j ==> #[trigger] self.names@[i]@
                != #[trigger] self.names@[j]@
    }

    spec fn entries(&self) -> Seq<(Seq<char>, T)> {
        collection_entries(self.names@, self.packages@)
    }

    proof fn lemma_entries(&self)
        requires
            self.wf(),
        ensures
            distinct_names(self.entries()),
            self.entries().len() == self.names@.len(),
            forall|i: int|
                0 <= i < self.names@.len() ==> #[trigger] self.entries()[i] == (
                    self.names@[i]@,
                    self.packages@[i],
                ),
    {
        assert forall|a: int, b: int|
            0 <= a < self.entries().len() && 0 <= b < self.entries().len() && a != b implies #[trigger] self.entries()[a].0
            != #[trigger] self.entries()[b].0 by {
            assert(self.names@[a]@ != self.names@[b]@);
        }
    }

    /// The index of the package named `name`.
    fn find(&self, name: &str) -> (res: Option<usize>)
        ensures
            match res {
                Some(i) => i < self.names@.len() && self.names@[i as int]@ == name@,
                None => forall|i: int|
                    0 <= i < self.names@.len() ==> #[trigger] self.names@[i]@ != name@,
            },
    {
        let key = String::from_str(name);
        let mut i: usize = 0;
        while i < self.names.len()
            invariant
                key@ == name@,
                i <= self.names@.len(),
                forall|j: int| 0 <= j < i ==> #[trigger] self.names@[j]@ != name@,
            decreases self.names@.len() - i,
        {
            if self.names[i] == key {
                return Some(i);
            }
            i += 1;
        }
        None
    }

    /// Adds `package` under `name`, replacing a package of that name.
    fn insert(&mut self, name: String, package: T)
        ensures
            final(self)@.directory == old(self)@.directory,
            final(self)@.is_post_ensmallening == old(self)@.is_post_ensmallening,
            final(self)@.packages == old(self)@.packages.insert(name@, package),
    {
        proof {
            use_type_invariant(&*self);
            self.lemma_entries();
        }
        let ghost old_entries = self.entries();
        let ghost key = name@;
        match self.find(name.as_str()) {
            Some(i) => {
                proof {
                    lemma_entries_map_set(old_entries, i as int);
                }
                let mut taken = PackageCollection {
                    directory: String::new(),
                    is_post_ensmallening: false,
                    names: Vec::new(),
                    packages: Vec::new(),
                };
                std::mem::swap(&mut taken, self);
                let PackageCollection { directory, is_post_ensmallening, names, mut packages } =
                    taken;
                packages.set(i, package);
                assert(collection_entries(names@, packages@) =~= old_entries.update(
                    i as int,
                    (old_entries[i as int].0, package),
                ));
                *self = PackageCollection { directory, is_post_ensmallening, names, packages };
            },
            None => {
                let mut taken = PackageCollection {
                    directory: String::new(),
                    is_post_ensmallening: false,
                    names: Vec::new(),
                    packages: Vec::new(),
                };
                std::mem::swap(&mut taken, self);
                let PackageCollection { directory, is_post_ensmallening, mut names, mut packages } =
                    taken;
                names.push(name);
                packages.push(package);
                let ghost entries = collection_entries(names@, packages@);
                assert(entries.drop_last() =~= old_entries);
                assert(entries.last() == (key, package));
                assert forall|a: int, b: int|
                    0 <= a < names@.len() && 0 <= b < names@.len() && a != b implies #[trigger] names@[a]@
                    != #[trigger] names@[b]@ by {
                    if a < old_entries.len() && b < old_entries.len() {
                        assert(old_entries[a].0 != old_entries[b].0);
                    } else if a < old_entries.len() {
                        assert(old_entries[a].0 != key);
                    } else {
                        assert(old_entries[b].0 != key);
                    }
                }
                *self = PackageCollection { directory, is_post_ensmallening, names, packages };
            },
        }
    }
}

impl<T> PackageCollection<T> {
    /// A collection for the cache directory `directory` whose files are
    /// named `file_names`: one package for each header table of contents
    /// `H.X.toc` among them, named `X` and made by `make_package` from that
    /// name.
    pub fn new<F: Fn(String) -> T>(
        directory: String,
        is_post_ensmallening: bool,
        file_names: &[&str],
        make_package: F,
    ) -> (res: Self)
        requires
            forall|name: String| #[trigger] make_package.requires((name,)),
        ensures
            res@.directory == directory@,
            res@.is_post_ensmallening == is_post_ensmallening,
            res@.packages.dom() == spec_package_names(file_names@).to_set(),
            forall|k: Seq<char>| #[trigger]
                res@.packages.contains_key(k) ==> exists|name: String|
                    name@ == k && #[trigger] make_package.ensures((name,), res@.packages[k]),
            forall|k: Seq<char>| #[trigger]
                res@.packages.contains_key(k) ==> k.len() > 0 && exists|j: int|
                    0 <= j < file_names@.len() && spec_package_name_from_toc_file(
                        #[trigger] file_names@[j],
                    ) == Some(k),
    {
        let names = package_names_from_listing(file_names);
        let ghost all = names@.map_values(|s: String| s@);
        let mut res = PackageCollection {
            directory,
            is_post_ensmallening,
            names: Vec::new(),
            packages: Vec::new(),
        };
        let mut i: usize = 0;
        assert(collection_entries(res.names@, res.packages@) =~= Seq::<(Seq<char>, T)>::empty());
        assert(res@.packages =~= Map::<Seq<char>, T>::empty());
        assert(all.subrange(0, 0).to_set() =~= Set::<Seq<char>>::empty());
        while i < names.len()
            invariant
                all == names@.map_values(|s: String| s@),
                i <= names@.len(),
                forall|name: String| #[trigger] make_package.requires((name,)),
                res@.directory == directory@,
                res@.is_post_ensmallening == is_post_ensmallening,
                res@.packages.dom() == all.subrange(0, i as int).to_set(),
                forall|k: Seq<char>| #[trigger]
                    res@.packages.contains_key(k) ==> exists|name: String|
                        name@ == k && #[trigger] make_package.ensures((name,), res@.packages[k]),
            decreases names@.len() - i,
        {
            let name = names[i].clone();
            let package = make_package(name.clone());
            let ghost arg = name;
            let ghost before = res@.packages;
            res.insert(name, package);
            assert(all.subrange(0, i + 1) =~= all.subrange(0, i as int).push(all[i as int]));
            assert(all[i as int] == names@[i as int]@);
            assert(res@.packages.dom() =~= all.subrange(0, i + 1).to_set()) by {
                let pre = all.subrange(0, i as int);
                let post = all.subrange(0, i + 1);
                assert(post =~= pre.push(all[i as int]));
                assert forall|k: Seq<char>| post.contains(k) <==> (pre.contains(k) || k
                    == all[i as int]) by {
                    if post.contains(k) {
                        let j = choose|j: int| 0 <= j < post.len() && #[trigger] post[j] == k;
                        if j < i {
                            assert(pre[j] == k);
                        }
                    }
                    if pre.contains(k) {
                        let j = choose|j: int| 0 <= j < pre.len() && #[trigger] pre[j] == k;
                        assert(post[j] == k);
                    }
                    if k == all[i as int] {
                        assert(post[i as int] == k);
                    }
                }
            }
            assert forall|k: Seq<char>| #[trigger]
                res@.packages.contains_key(k) implies exists|name: String|
                    name@ == k && #[trigger] make_package.ensures((name,), res@.packages[k]) by {
                if k == arg@ {
                    assert(make_package.ensures((arg,), res@.packages[k]));
                } else {
                    assert(before.contains_key(k));
                    assert(res@.packages[k] == before[k]);
                }
            }
            i += 1;
        }
        assert(all.subrange(0, i as int) =~= all);
        proof {
            law_package_names_from_toc_files(file_names@);
            assert forall|k: Seq<char>| #[trigger] res@.packages.contains_key(k) implies k.len() > 0
                && exists|j: int|
                0 <= j < file_names@.len() && spec_package_name_from_toc_file(
                    #[trigger] file_names@[j],
                ) == Some(k) by {
                assert(all.to_set().contains(k));
                let m = choose|m: int| 0 <= m < all.len() && #[trigger] all[m] == k;
                assert(spec_package_names(file_names@)[m] == k);
            }
        }
        res
    }

    /// Returns whether the package is post-ensmallening.
    ///
    /// This is used to determine how to decompress the data from before "The Great Ensmallening"
    /// update of Warframe. Also applies to Soulframe.
    pub fn is_post_ensmallening(&self) -> (res: bool)
        ensures
            res == self@.is_post_ensmallening,
    {
        self.is_post_ensmallening
    }

    /// Returns the directory of the package collection.
    pub fn directory(&self) -> (res: &str)
        ensures
            res@ == self@.directory,
    {
        self.directory.as_str()
    }

    /// Returns the packages within the package collection, with their names.
    pub fn packages<'a>(&'a self) -> (res: Vec<(&'a str, &'a T)>)
        ensures
            distinct_names(res@.map_values(|e: (&'a str, &'a T)| (e.0@, *e.1))),
            entries_map(res@.map_values(|e: (&'a str, &'a T)| (e.0@, *e.1))) == self@.packages,
    {
        proof {
            use_type_invariant(self);
            self.lemma_entries();
        }
        let ghost entries = self.entries();
        let mut res: Vec<(&'a str, &'a T)> = Vec::new();
        let mut i: usize = 0;
        while i < self.names.len()
            invariant
                entries == self.entries(),
                self.names@.len() == self.packages@.len(),
                entries.len() == self.names@.len(),
                forall|j: int| 0 <= j < self.names@.len() ==> #[trigger] entries[j] == (
                    self.names@[j]@,
                    self.packages@[j],
                ),
                i <= self.names@.len(),
                res@.map_values(|e: (&'a str, &'a T)| (e.0@, *e.1)) == entries.subrange(0, i as int),
            decreases self.names@.len() - i,
        {
            let ghost before = res@.map_values(|e: (&'a str, &'a T)| (e.0@, *e.1));
            res.push((self.names[i].as_str(), &self.packages[i]));
            assert(res@.map_values(|e: (&'a str, &'a T)| (e.0@, *e.1)) =~= before.push(entries[i as int]));
            assert(entries.subrange(0, i + 1) =~= entries.subrange(0, i as int).push(entries[i as int]));
            i += 1;
        }
        assert(entries.subrange(0, i as int) =~= entries);
        res
    }

    /// Returns a reference to the package with the specified name if found.
    pub fn borrow(&self, package_name: &str) -> (res: Option<&T>)
        ensures
            match res {
                Some(p) => self@.packages.contains_key(package_name@) && *p == self@.packages[package_name@],
                None => !self@.packages.contains_key(package_name@),
            },
    {
        proof {
            use_type_invariant(self);
            self.lemma_entries();
            lemma_entries_map(self.entries());
        }
        match self.find(package_name) {
            Some(i) => {
                assert(self.entries()[i as int].0 == package_name@);
                Some(&self.packages[i])
            },
            None => {
                assert forall|j: int| 0 <= j < self.entries().len() implies #[trigger] self.entries()[j].0
                    != package_name@ by {
                    assert(self.names@[j]@ != package_name@);
                }
                None
            },
        }
    }

    /// Returns the package with the specified name if found, removing it
    /// from the collection.
    pub fn take(&mut self, package_name: &str) -> (res: Option<T>)
        ensures
            final(self)@.directory == old(self)@.directory,
            final(self)@.is_post_ensmallening == old(self)@.is_post_ensmallening,
            final(self)@.packages == old(self)@.packages.remove(package_name@),
            match res {
                Some(p) => old(self)@.packages.contains_key(package_name@) && p == old(self)@.packages[package_name@],
                None => !old(self)@.packages.contains_key(package_name@),
            },
    {
        proof {
            use_type_invariant(&*self);
            self.lemma_entries();
            lemma_entries_map(self.entries());
        }
        let ghost old_entries = self.entries();
        let ghost key = package_name@;
        match self.find(package_name) {
            Some(i) => {
                proof {
                    lemma_entries_map_remove(old_entries, i as int);
                }
                let mut taken = PackageCollection {
                    directory: String::new(),
                    is_post_ensmallening: false,
                    names: Vec::new(),
                    packages: Vec::new(),
                };
                std::mem::swap(&mut taken, self);
                let PackageCollection { directory, is_post_ensmallening, mut names, mut packages } =
                    taken;
                let ghost old_names = names@;
                names.remove(i);
                let package = packages.remove(i);
                assert(collection_entries(names@, packages@) =~= old_entries.remove(i as int));
                assert forall|a: int, b: int|
                    0 <= a < names@.len() && 0 <= b < names@.len() && a != b implies #[trigger] names@[a]@
                    != #[trigger] names@[b]@ by {
                    let a2 = if a < i { a } else { a + 1 };
                    let b2 = if b < i { b } else { b + 1 };
                    assert(names@[a] == old_names[a2] && names@[b] == old_names[b2]);
                    assert(old_entries[a2].0 != old_entries[b2].0);
                }
                *self = PackageCollection { directory, is_post_ensmallening, names, packages };
                Some(package)
            },
            None => {
                proof {
                    assert forall|j: int| 0 <= j < old_entries.len() implies #[trigger] old_entries[j].0
                        != key by {
                        assert(self.names@[j]@ != key);
                    }
                    assert(entries_map(old_entries).remove(key) =~= entries_map(old_entries));
                }
                None
            },
        }
    }
}

impl<T> PackageCollection<T> {
    /// Returns a mutable reference to the package with the specified name if found.
    pub fn borrow_mut(&mut self, package_name: &str) -> (res: Option<&mut T>)
        ensures
            final(self)@.directory == old(self)@.directory,
            final(self)@.is_post_ensmallening == old(self)@.is_post_ensmallening,
            match res {
                Some(p) => old(self)@.packages.contains_key(package_name@) && *p == old(
                    self,
                )@.packages[package_name@] && final(self)@.packages == old(self)@.packages.insert(
                    package_name@,
                    *final(p),
                ),
                None => !old(self)@.packages.contains_key(package_name@) && final(self)@.packages
                    == old(self)@.packages,
            },
    {
        proof {
            use_type_invariant(&*self);
            self.lemma_entries();
            lemma_entries_map(self.entries());
        }
        let ghost entries = self.entries();
        match self.find(package_name) {
            Some(i) => {
                proof {
                    lemma_entries_map_set(entries, i as int);
                    assert forall|v: T| #[trigger] collection_entries(
                        self.names@,
                        self.packages@.update(i as int, v),
                    ) == entries.update(i as int, (entries[i as int].0, v)) by {
                        assert(collection_entries(self.names@, self.packages@.update(i as int, v))
                            =~= entries.update(i as int, (entries[i as int].0, v)));
                    }
                }
                assert(entries[i as int] == (package_name@, self.packages@[i as int]));
                assert(entries_map(entries)[entries[i as int].0] == entries[i as int].1);
                assert(entries_map(entries).contains_key(package_name@));
                let r = &mut self.packages[i];
                Some(r)
            },
            None => {
                proof {
                    assert forall|j: int| 0 <= j < entries.len() implies #[trigger] entries[j].0
                        != package_name@ by {
                        assert(self.names@[j]@ != package_name@);
                    }
                }
                None
            },
        }
    }
}

/// The variants of `base` that `packages` holds, for the suffixes from
/// index `i` on: each suffixed name with its package.
pub open spec fn suffixed_variants_from<T>(packages: Map<Seq<char>, T>, base: Seq<char>, i: int) -> Seq<
    (Seq<char>, T),
>
    decreases 14 - i,
{
    if i < 0 || i >= 14 {
        Seq::empty()
    } else {
        let key = base + suffix_at(i);
        let rest = suffixed_variants_from(packages, base, i + 1);
        if packages.contains_key(key) {
            seq![(key, packages[key])] + rest
        } else {
            rest
        }
    }
}

/// The localization variants of `base`: the package named `base` itself,
/// then the package of each suffixed name, in the order of the suffixes.
pub open spec fn spec_localization_variants<T>(packages: Map<Seq<char>, T>, base: Seq<char>) -> Seq<
    (Seq<char>, T),
> {
    let own = if packages.contains_key(base) {
        seq![(base, packages[base])]
    } else {
        Seq::empty()
    };
    own + suffixed_variants_from(packages, base, 0)
}

proof fn lemma_suffixed_variants<T>(packages: Map<Seq<char>, T>, base: Seq<char>, k: int)
    requires
        0 <= k <= 14,
    ensures
        forall|i: int|
            k <= i < 14 && packages.contains_key(base + LOCALIZATION_SUFFIXES@[i]@) ==> #[trigger] suffixed_variants_from(
                packages,
                base,
                k,
            ).contains(
                (base + LOCALIZATION_SUFFIXES@[i]@, packages[base + LOCALIZATION_SUFFIXES@[i]@]),
            ),
        forall|v: (Seq<char>, T)| #[trigger]
            suffixed_variants_from(packages, base, k).contains(v) ==> packages.contains_key(v.0)
                && packages[v.0] == v.1 && exists|i: int|
                k <= i < 14 && v.0 == base + #[trigger] LOCALIZATION_SUFFIXES@[i]@,
    decreases 14 - k,
{
    if k < 14 {
        lemma_suffixed_variants(packages, base, k + 1);
        let key = base + suffix_at(k);
        let rest = suffixed_variants_from(packages, base, k + 1);
        let here = suffixed_variants_from(packages, base, k);
        if packages.contains_key(key) {
            assert(here == seq![(key, packages[key])] + rest);
            assert forall|v: (Seq<char>, T)| rest.contains(v) implies here.contains(v) by {
                let j = choose|j: int| 0 <= j < rest.len() && rest[j] == v;
                assert(here[j + 1] == v);
            }
            assert(here[0] == (key, packages[key]));
            assert forall|v: (Seq<char>, T)| #[trigger] here.contains(v) implies packages.contains_key(
                v.0,
            ) && packages[v.0] == v.1 && exists|i: int|
                k <= i < 14 && v.0 == base + #[trigger] LOCALIZATION_SUFFIXES@[i]@ by {
                let j = choose|j: int| 0 <= j < here.len() && here[j] == v;
                if j == 0 {
                    assert(v.0 == base + LOCALIZATION_SUFFIXES@[k]@);
                } else {
                    assert(rest[j - 1] == v);
                    assert(rest.contains(v));
                }
            }
        } else {
            assert(here == rest);
        }
    } else {
        assert(suffixed_variants_from(packages, base, k) =~= Seq::<(Seq<char>, T)>::empty());
    }
}

/// Law: the localization variants of `base` are the package named `base`
/// itself, first, when the collection holds it, and the package of every
/// name `base` followed by one of the fourteen localization suffixes that
/// the collection holds; each variant is such a name with its package.
pub proof fn law_localization_variants_complete<T>(packages: Map<Seq<char>, T>, base: Seq<char>)
    ensures
        forall|i: int|
            0 <= i < 14 && packages.contains_key(base + LOCALIZATION_SUFFIXES@[i]@) ==> #[trigger] spec_localization_variants(
                packages,
                base,
            ).contains(
                (base + LOCALIZATION_SUFFIXES@[i]@, packages[base + LOCALIZATION_SUFFIXES@[i]@]),
            ),
        packages.contains_key(base) ==> spec_localization_variants(packages, base).len() > 0
            && spec_localization_variants(packages, base)[0] == (base, packages[base]),
        forall|v: (Seq<char>, T)| #[trigger]
            spec_localization_variants(packages, base).contains(v) ==> packages.contains_key(v.0)
                && packages[v.0] == v.1 && (v.0 == base || exists|i: int|
                0 <= i < 14 && v.0 == base + #[trigger] LOCALIZATION_SUFFIXES@[i]@),
{
    lemma_suffixed_variants(packages, base, 0);
    let own = if packages.contains_key(base) {
        seq![(base, packages[base])]
    } else {
        Seq::empty()
    };
    let rest = suffixed_variants_from(packages, base, 0);
    let all = spec_localization_variants(packages, base);
    assert(all == own + rest);
    assert forall|v: (Seq<char>, T)| rest.contains(v) implies all.contains(v) by {
        let j = choose|j: int| 0 <= j < rest.len() && rest[j] == v;
        assert(all[own.len() + j] == v);
    }
    assert forall|v: (Seq<char>, T)| #[trigger] all.contains(v) implies packages.contains_key(v.0)
        && packages[v.0] == v.1 && (v.0 == base || exists|i: int|
        0 <= i < 14 && v.0 == base + #[trigger] LOCALIZATION_SUFFIXES@[i]@) by {
        let j = choose|j: int| 0 <= j < all.len() && all[j] == v;
        if j < own.len() {
            assert(own[j] == v);
        } else {
            assert(rest[j - own.len()] == v);
            assert(rest.contains(v));
        }
    }
}

/// The name of the package whose header table of contents is the file
/// `file_name`: `X` for `H.X.toc`.
pub open spec fn spec_package_name_from_toc_file(file_name: &str) -> Option<Seq<char>> {
    let c = file_name@;
    if file_name.len() < 7 {
        None
    } else if !spec_starts_with(c, seq!['H', '.']) || !spec_ends_with(c, seq!['.', 't', 'o', 'c']) {
        None
    } else {
        Some(c.subrange(2, c.len() - 4))
    }
}

/// The name of the package whose header table of contents is the file
/// `file_name` (`X` for `H.X.toc`), or `None` for any other file. The
/// shortest package file name, `H.1.toc`, has 7 bytes.
pub fn package_name_from_toc_file(file_name: &str) -> (res: Option<String>)
    ensures
        match res {
            Some(name) => spec_package_name_from_toc_file(file_name) == Some(name@),
            None => spec_package_name_from_toc_file(file_name) is None,
        },
{
    if file_name.len() < 7 {
        return None;
    }
    proof {
        reveal_strlit("H.");
        reveal_strlit(".toc");
        assert("H."@ =~= seq!['H', '.']);
        assert(".toc"@ =~= seq!['.', 't', 'o', 'c']);
    }
    if !starts_with(file_name, "H.") || !ends_with(file_name, ".toc") {
        return None;
    }
    let n = file_name.unicode_len();
    if n < 6 {
        // A name of fewer than six characters cannot both start with `H.`
        // and end with `.toc` without being `H.toc`, whose 5 bytes were
        // rejected above.
        proof {
            let c = file_name@;
            assert(c =~= seq!['H', '.', 't', 'o', 'c']) by {
                assert(c.subrange(0, 2)[0] == 'H' && c.subrange(0, 2)[1] == '.');
                assert(c.subrange(c.len() - 4, c.len() as int)[1] == 't');
                assert(c.subrange(c.len() - 4, c.len() as int)[2] == 'o');
                assert(c.subrange(c.len() - 4, c.len() as int)[3] == 'c');
            }
            assert(vstd::string::is_ascii(file_name));
            vstd::string::is_ascii_spec_bytes(file_name);
        }
        return None;
    }
    Some(String::from_str(file_name.substring_char(2, n - 4)))
}

/// The package names that the header tables of contents among the files
/// named `file_names` give, in the order of the files.
pub open spec fn spec_package_names(file_names: Seq<&str>) -> Seq<Seq<char>>
    decreases file_names.len(),
{
    if file_names.len() == 0 {
        Seq::empty()
    } else {
        let rest = spec_package_names(file_names.drop_last());
        match spec_package_name_from_toc_file(file_names.last()) {
            Some(name) => rest.push(name),
            None => rest,
        }
    }
}

/// The names of the packages whose header tables of contents are among the
/// files named `file_names`, in the order of the files.
pub fn package_names_from_listing(file_names: &[&str]) -> (res: Vec<String>)
    ensures
        res@.map_values(|s: String| s@) == spec_package_names(file_names@),
{
    let mut res: Vec<String> = Vec::new();
    let mut i: usize = 0;
    while i < file_names.len()
        invariant
            i <= file_names@.len(),
            res@.map_values(|s: String| s@) == spec_package_names(file_names@.subrange(0, i as int)),
        decreases file_names@.len() - i,
    {
        let ghost before = res@.map_values(|s: String| s@);
        assert(file_names@.subrange(0, i + 1).drop_last() =~= file_names@.subrange(0, i as int));
        assert(file_names@.subrange(0, i + 1).last() == file_names@[i as int]);
        match package_name_from_toc_file(file_names[i]) {
            Some(name) => {
                res.push(name);
                assert(res@.map_values(|s: String| s@) =~= before.push(res@.last()@));
            },
            None => {},
        }
        i += 1;
    }
    assert(file_names@.subrange(0, i as int) =~= file_names@);
    res
}

proof fn lemma_toc_file_name_nonempty(file_name: &str)
    ensures
        spec_package_name_from_toc_file(file_name) matches Some(n) ==> n.len() > 0,
{
    let c = file_name@;
    if spec_package_name_from_toc_file(file_name) is Some && c.len() <= 6 {
        let head = c.subrange(0, 2);
        let tail = c.subrange(c.len() - 4, c.len() as int);
        assert(head[0] == 'H' && head[1] == '.');
        assert(tail[0] == '.' && tail[1] == 't' && tail[2] == 'o' && tail[3] == 'c');
        assert(c[0] == 'H' && c[1] == '.');
        assert(c[c.len() - 4] == '.' && c[c.len() - 3] == 't' && c[c.len() - 2] == 'o' && c[c.len()
            - 1] == 'c');
        assert(vstd::string::is_ascii(file_name)) by {
            assert forall|i: int| 0 <= i < c.len() implies (#[trigger] c[i]) as u32 <= 0x7f by {
                if c.len() == 6 {
                    assert(i == 0 || i == 1 || i == 2 || i == 3 || i == 4 || i == 5);
                }
            }
        }
        vstd::string::is_ascii_spec_bytes(file_name);
    }
}

/// Law: every package name taken from a listing is non-empty and is the
/// name that one of the listed files, a header table of contents, gives.
pub proof fn law_package_names_from_toc_files(file_names: Seq<&str>)
    ensures
        forall|i: int|
            0 <= i < spec_package_names(file_names).len() ==> (#[trigger] spec_package_names(
                file_names,
            )[i]).len() > 0 && exists|j: int|
                0 <= j < file_names.len() && spec_package_name_from_toc_file(#[trigger] file_names[j])
                    == Some(spec_package_names(file_names)[i]),
    decreases file_names.len(),
{
    if file_names.len() > 0 {
        let prefix = file_names.drop_last();
        law_package_names_from_toc_files(prefix);
        lemma_toc_file_name_nonempty(file_names.last());
        let names = spec_package_names(file_names);
        let pre_names = spec_package_names(prefix);
        assert forall|i: int| 0 <= i < names.len() implies (#[trigger] names[i]).len() > 0 && exists|
            j: int,
        |
            0 <= j < file_names.len() && spec_package_name_from_toc_file(#[trigger] file_names[j])
                == Some(names[i]) by {
            if i < pre_names.len() {
                assert(names[i] == pre_names[i]);
                let j = choose|j: int|
                    0 <= j < prefix.len() && spec_package_name_from_toc_file(#[trigger] prefix[j])
                        == Some(pre_names[i]);
                assert(file_names[j] == prefix[j]);
            } else {
                assert(file_names[file_names.len() - 1] == file_names.last());
            }
        }
    }
}

impl<T> PackageCollection<T> {
    /// Check if a package name has a localization suffix.
    pub fn is_localized_package(package_name: &str) -> (res: bool)
        ensures
            res == spec_is_localized(package_name@),
    {
        let mut i: usize = 0;
        while i < 14
            invariant
                i <= 14,
                spec_is_localized(package_name@) == ends_with_suffix_from(package_name@, i as int),
            decreases 14 - i,
        {
            if ends_with(package_name, LOCALIZATION_SUFFIXES[i]) {
                return true;
            }
            i += 1;
        }
        false
    }

    /// Get the base package name without localization suffix.
    pub fn get_base_package_name(package_name: &str) -> (res: &str)
        ensures
            res@ == spec_base_package_name(package_name@),
    {
        let mut i: usize = 0;
        while i < 14
            invariant
                i <= 14,
                spec_base_package_name(package_name@) == base_name_from(package_name@, i as int),
            decreases 14 - i,
        {
            let suffix = LOCALIZATION_SUFFIXES[i];
            if ends_with(package_name, suffix) {
                let n = package_name.unicode_len();
                let k = suffix.unicode_len();
                return package_name.substring_char(0, n - k);
            }
            i += 1;
        }
        package_name
    }

    /// Get all localization variants for a base package name: the package
    /// named `base_name`, then those named `base_name` followed by each
    /// localization suffix, with their names.
    pub fn get_localization_variants<'a>(&'a self, base_name: &str) -> (res: Vec<(String, &'a T)>)
        ensures
            res@.map_values(|v: (String, &'a T)| (v.0@, *v.1)) == spec_localization_variants(
                self@.packages,
                base_name@,
            ),
            forall|i: int|
                0 <= i < 14 && self@.packages.contains_key(base_name@ + LOCALIZATION_SUFFIXES@[i]@)
                    ==> exists|j: int|
                    0 <= j < res@.len() && (#[trigger] res@[j]).0@ == base_name@
                        + LOCALIZATION_SUFFIXES@[i]@ && *res@[j].1 == self@.packages[base_name@
                        + LOCALIZATION_SUFFIXES@[i]@],
    {
        let mut variants: Vec<(String, &'a T)> = Vec::new();
        let ghost m = self@.packages;

        if let Some(pkg) = self.borrow(base_name) {
            variants.push((String::from_str(base_name), pkg));
        }
        let ghost own = variants@.map_values(|v: (String, &'a T)| (v.0@, *v.1));
        assert(own =~= (if m.contains_key(base_name@) {
            seq![(base_name@, m[base_name@])]
        } else {
            Seq::empty()
        }));

        let mut i: usize = 0;
        while i < 14
            invariant
                i <= 14,
                m == self@.packages,
                spec_localization_variants(m, base_name@) == variants@.map_values(
                    |v: (String, &'a T)| (v.0@, *v.1),
                ) + suffixed_variants_from(m, base_name@, i as int),
            decreases 14 - i,
        {
            let mut localized_key = String::from_str(base_name);
            localized_key.append(LOCALIZATION_SUFFIXES[i]);
            let ghost before = variants@.map_values(|v: (String, &'a T)| (v.0@, *v.1));
            if let Some(pkg) = self.borrow(localized_key.as_str()) {
                variants.push((localized_key, pkg));
                assert(variants@.map_values(|v: (String, &'a T)| (v.0@, *v.1)) =~= before.push(
                    (base_name@ + suffix_at(i as int), m[base_name@ + suffix_at(i as int)]),
                ));
                assert(before + suffixed_variants_from(m, base_name@, i as int) =~= before.push(
                    (base_name@ + suffix_at(i as int), m[base_name@ + suffix_at(i as int)]),
                ) + suffixed_variants_from(m, base_name@, i + 1));
            }
            i += 1;
        }
        assert(suffixed_variants_from(m, base_name@, 14) =~= Seq::<(Seq<char>, T)>::empty());
        assert(variants@.map_values(|v: (String, &'a T)| (v.0@, *v.1)) + Seq::<(Seq<char>, T)>::empty()
            =~= variants@.map_values(|v: (String, &'a T)| (v.0@, *v.1)));
        proof {
            law_localization_variants_complete(m, base_name@);
            let mapped = variants@.map_values(|v: (String, &'a T)| (v.0@, *v.1));
            assert forall|i: int|
                0 <= i < 14 && m.contains_key(base_name@ + LOCALIZATION_SUFFIXES@[i]@) implies exists|
                j: int,
            |
                0 <= j < variants@.len() && (#[trigger] variants@[j]).0@ == base_name@
                    + LOCALIZATION_SUFFIXES@[i]@ && *variants@[j].1 == m[base_name@
                    + LOCALIZATION_SUFFIXES@[i]@] by {
                let key = base_name@ + LOCALIZATION_SUFFIXES@[i]@;
                assert(spec_localization_variants(m, base_name@).contains((key, m[key])));
                let j = choose|j: int| 0 <= j < mapped.len() && mapped[j] == (key, m[key]);
                assert(mapped[j] == (variants@[j].0@, *variants@[j].1));
            }
        }
        variants
    }
}

proof fn lemma_suffixes_nonempty()
    ensures
        forall|i: int| 0 <= i < 14 ==> (#[trigger] suffix_at(i)).len() == 3,
{
    reveal_strlit("_en");
    reveal_strlit("_de");
    reveal_strlit("_fr");
    reveal_strlit("_it");
    reveal_strlit("_es");
    reveal_strlit("_ja");
    reveal_strlit("_ko");
    reveal_strlit("_pl");
    reveal_strlit("_pt");
    reveal_strlit("_ru");
    reveal_strlit("_tr");
    reveal_strlit("_uk");
    reveal_strlit("_zh");
    reveal_strlit("_xx");
}

proof fn lemma_base_name_from(name: Seq<char>, i: int)
    requires
        0 <= i <= 14,
        forall|j: int| 0 <= j < 14 ==> (#[trigger] suffix_at(j)).len() == 3,
    ensures
        ends_with_suffix_from(name, i) ==> exists|j: int|
            i <= j < 14 && base_name_from(name, i) + #[trigger] suffix_at(j) == name
                && base_name_from(name, i).len() + 3 == name.len(),
        !ends_with_suffix_from(name, i) ==> base_name_from(name, i) == name,
    decreases 14 - i,
{
    if i < 14 {
        lemma_base_name_from(name, i + 1);
        if spec_ends_with(name, suffix_at(i)) {
            let base = base_name_from(name, i);
            assert(base + suffix_at(i) =~= name);
        }
    }
}

/// Law: a name is localized exactly when removing its suffix changes it;
/// the base name of a localized name followed by one of the suffixes is
/// that name again, and is three characters shorter.
pub proof fn law_base_package_name(name: Seq<char>)
    ensures
        spec_is_localized(name) <==> spec_base_package_name(name) != name,
        spec_is_localized(name) ==> exists|j: int|
            0 <= j < 14 && spec_base_package_name(name) + #[trigger] suffix_at(j) == name,
        spec_is_localized(name) ==> spec_base_package_name(name).len() + 3 == name.len(),
{
    lemma_suffixes_nonempty();
    lemma_base_name_from(name, 0);
}

} // verus!
