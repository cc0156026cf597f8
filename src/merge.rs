//! Merging the tables of many archives into one, later archives winning.
//!
//! Archives are folded in input order. Each entry of the merged table names
//! the archive it comes from by its position in the table's list of archive
//! identities, so an identity is held once however many entries share it.
use crate::chunk::ArchiveHeader;
use crate::file_table::{
    lemma_table_map_dom, lemma_table_map_index, table_map, DescriptorModel, FileDescriptor,
    FileTable,
};
use vstd::hash_map::StringHashMap;
use vstd::prelude::*;

verus! {

/// The identity of an archive, as merged entries refer to it.
#[derive(Debug, Clone)]
pub struct ShortArchiveHeader {
    pub archive_path: String,
    pub output_root_path: String,
}

/// An entry of a later archive took the place of an earlier archive's entry.
#[derive(Debug, Clone)]
pub struct Override {
    pub name: String,
    /// The archive whose entry was replaced.
    pub previous_archive: usize,
    /// The archive whose entry replaced it.
    pub archive: usize,
}

pub struct OverrideModel {
    pub name: Seq<char>,
    pub previous_archive: usize,
    pub archive: usize,
}

impl View for Override {
    type V = OverrideModel;

    open spec fn view(&self) -> OverrideModel {
        OverrideModel {
            name: self.name@,
            previous_archive: self.previous_archive,
            archive: self.archive,
        }
    }
}

impl View for ShortArchiveHeader {
    type V = (Seq<char>, Seq<char>);

    open spec fn view(&self) -> (Seq<char>, Seq<char>) {
        (self.archive_path@, self.output_root_path@)
    }
}

/// What a merged table holds: the archive identities in input order, the
/// map from entry name to owning archive and descriptor, and the overrides
/// met so far, in order.
pub struct MergedModel {
    pub archives: Seq<(Seq<char>, Seq<char>)>,
    pub entries: Map<Seq<char>, (usize, DescriptorModel)>,
    pub overrides: Seq<OverrideModel>,
}

pub open spec fn empty_merge() -> MergedModel {
    MergedModel { archives: Seq::empty(), entries: Map::empty(), overrides: Seq::empty() }
}

/// `st` once the descriptors `files` of archive `k` are inserted in order.
pub open spec fn add_files(st: MergedModel, k: usize, files: Seq<FileDescriptor>) -> MergedModel
    decreases files.len(),
{
    if files.len() == 0 {
        st
    } else {
        let prev = add_files(st, k, files.drop_last());
        let d = files.last();
        MergedModel {
            archives: prev.archives,
            entries: prev.entries.insert(d.name@, (k, d@)),
            overrides: if prev.entries.dom().contains(d.name@) && prev.entries[d.name@].0 != k {
                prev.overrides.push(
                    OverrideModel {
                        name: d.name@,
                        previous_archive: prev.entries[d.name@].0,
                        archive: k,
                    },
                )
            } else {
                prev.overrides
            },
        }
    }
}

/// `st` once the archive `h` is folded in.
pub open spec fn add_archive_model(st: MergedModel, h: ArchiveHeader) -> MergedModel {
    add_files(
        MergedModel {
            archives: st.archives.push((h.archive_path@, h.output_root_path@)),
            entries: st.entries,
            overrides: st.overrides,
        },
        st.archives.len() as usize,
        h.files@,
    )
}

/// The merge of the loaded archives `hs`, in order; an archive without a
/// file table (`None`) contributes nothing.
pub open spec fn merged_of(hs: Seq<Option<ArchiveHeader>>) -> MergedModel
    decreases hs.len(),
{
    if hs.len() == 0 {
        empty_merge()
    } else {
        let prev = merged_of(hs.drop_last());
        match hs.last() {
            Some(h) => add_archive_model(prev, h),
            None => prev,
        }
    }
}

/// The table that results from merging archives.
pub struct MergedTable {
    archives: Vec<ShortArchiveHeader>,
    files: FileTable,
    owners: StringHashMap<usize>,
    overrides: Vec<Override>,
}

impl MergedTable {
    pub closed spec fn wf(&self) -> bool {
        &&& self.files.wf()
        &&& self.owners@.dom() == self.files.map().dom()
        &&& forall|n: Seq<char>| #[trigger]
            self.owners@.contains_key(n) ==> self.owners@[n] < self.archives@.len()
    }

    pub closed spec fn model(&self) -> MergedModel {
        MergedModel {
            archives: Seq::new(self.archives@.len(), |i: int| self.archives@[i]@),
            entries: Map::new(
                |n: Seq<char>| self.files.map().dom().contains(n),
                |n: Seq<char>| (self.owners@[n], self.files.map()[n]),
            ),
            overrides: Seq::new(self.overrides@.len(), |i: int| self.overrides@[i]@),
        }
    }

    /// The descriptors of the merged entries, one per name.
    pub closed spec fn spec_descriptors(&self) -> Seq<FileDescriptor> {
        self.files.spec_entries()
    }

    /// Each descriptor is the entry of its name, and each entry has its descriptor.
    pub proof fn lemma_descriptors(&self)
        requires
            self.wf(),
        ensures
            forall|i: int|
                0 <= i < self.spec_descriptors().len() ==> self.model().entries.dom().contains(
                    #[trigger] self.spec_descriptors()[i].name@,
                ) && self.model().entries[self.spec_descriptors()[i].name@].1
                    == self.spec_descriptors()[i]@ && self.model().entries[self.spec_descriptors()[i].name@].0
                    < self.model().archives.len(),
            forall|n: Seq<char>|
                #![trigger self.model().entries.dom().contains(n)]
                self.model().entries.dom().contains(n) ==> exists|i: int|
                    0 <= i < self.spec_descriptors().len() && self.spec_descriptors()[i].name@ == n,
    {
        let s = self.spec_descriptors();
        self.files.lemma_wf();
        lemma_table_map_dom(s);
        assert forall|i: int| 0 <= i < s.len() implies self.model().entries.dom().contains(
            #[trigger] s[i].name@,
        ) && self.model().entries[s[i].name@].1 == s[i]@ && self.model().entries[s[i].name@].0
            < self.model().archives.len() by {
            lemma_table_map_index(s, i);
            assert(self.owners@.contains_key(s[i].name@));
        }
    }

    /// The descriptors carry distinct names.
    pub proof fn files_unique(&self)
        requires
            self.wf(),
        ensures
            crate::file_table::names_unique(self.spec_descriptors()),
    {
        self.files.lemma_wf();
    }

    pub fn new() -> (r: MergedTable)
        ensures
            r.wf(),
            r.model() == empty_merge(),
    {
        let r = MergedTable {
            archives: Vec::new(),
            files: FileTable::new(),
            owners: StringHashMap::new(),
            overrides: Vec::new(),
        };
        assert(r.model().entries =~= Map::empty());
        assert(r.model().archives =~= Seq::empty());
        assert(r.model().overrides =~= Seq::empty());
        r
    }

    /// Inserts descriptor `d` of archive `k`, noting an override where it
    /// replaces an entry of another archive.
    fn insert_entry(&mut self, k: usize, d: &FileDescriptor)
        requires
            old(self).wf(),
            k < old(self).archives@.len(),
        ensures
            final(self).wf(),
            final(self).archives@ == old(self).archives@,
            final(self).model() == (MergedModel {
                archives: old(self).model().archives,
                entries: old(self).model().entries.insert(d.name@, (k, d@)),
                overrides: if old(self).model().entries.dom().contains(d.name@) && old(
                    self,
                ).model().entries[d.name@].0 != k {
                    old(self).model().overrides.push(
                        OverrideModel {
                            name: d.name@,
                            previous_archive: old(self).model().entries[d.name@].0,
                            archive: k,
                        },
                    )
                } else {
                    old(self).model().overrides
                },
            }),
    {
        let ghost before = self.model();
        match self.owners.get(d.name.as_str()) {
            Some(p) => {
                let p = *p;
                if p != k {
                    self.overrides.push(Override { name: d.name.clone(), previous_archive: p, archive: k });
                }
            },
            None => {},
        }
        let ghost mid_overrides = self.overrides@;
        self.owners.insert(d.name.clone(), k);
        let copy = FileDescriptor {
            name: d.name.clone(),
            offset: d.offset,
            real_size: d.real_size,
            compressed_size: d.compressed_size,
            crc: d.crc,
        };
        self.files.insert(copy);
        proof {
            assert(self.owners@.dom() =~= self.files.map().dom());
            assert(self.model().entries =~= before.entries.insert(d.name@, (k, d@)));
            assert(self.model().archives =~= before.archives);
            if before.entries.dom().contains(d.name@) && before.entries[d.name@].0 != k {
                assert(self.model().overrides =~= before.overrides.push(
                    OverrideModel {
                        name: d.name@,
                        previous_archive: before.entries[d.name@].0,
                        archive: k,
                    },
                ));
            } else {
                assert(self.model().overrides =~= before.overrides);
            }
        }
    }

    /// Folds in one more archive: its identity joins the list and each of
    /// its entries replaces any entry of the same name.
    pub fn add_archive(&mut self, header: &ArchiveHeader)
        requires
            old(self).wf(),
        ensures
            final(self).wf(),
            final(self).model() == add_archive_model(old(self).model(), *header),
    {
        let k = self.archives.len();
        let identity = ShortArchiveHeader {
            archive_path: header.archive_path.clone(),
            output_root_path: header.output_root_path.clone(),
        };
        let ghost before = self.model();
        self.archives.push(identity);
        let ghost start = self.model();
        proof {
            assert(start.archives =~= before.archives.push(
                (header.archive_path@, header.output_root_path@),
            ));
            assert(start.entries =~= before.entries);
            assert(start.overrides =~= before.overrides);
        }
        let files = &header.files;
        let mut i: usize = 0;
        while i < files.len()
            invariant
                self.wf(),
                k < self.archives@.len(),
                k == before.archives.len(),
                i <= files@.len(),
                self.model() == add_files(start, k, files@.subrange(0, i as int)),
            decreases files@.len() - i,
        {
            self.insert_entry(k, &files[i]);
            proof {
                let taken = files@.subrange(0, i + 1);
                assert(taken.drop_last() =~= files@.subrange(0, i as int));
                assert(taken.last() == files@[i as int]);
            }
            i = i + 1;
        }
        assert(files@.subrange(0, i as int) =~= files@);
    }

    pub fn archives(&self) -> (r: &Vec<ShortArchiveHeader>)
        ensures
            Seq::new(r@.len(), |i: int| r@[i]@) == self.model().archives,
    {
        &self.archives
    }

    /// The overrides met while merging, in order.
    pub fn overrides(&self) -> (r: &Vec<Override>)
        ensures
            Seq::new(r@.len(), |i: int| r@[i]@) == self.model().overrides,
    {
        &self.overrides
    }

    /// The descriptors of the merged entries, one for each name.
    pub fn descriptors(&self) -> (r: &Vec<FileDescriptor>)
        requires
            self.wf(),
        ensures
            r@ == self.spec_descriptors(),
    {
        self.files.entries()
    }

    /// The archive that the entry named `name` comes from.
    pub fn owner(&self, name: &String) -> (r: Option<usize>)
        requires
            self.wf(),
        ensures
            match r {
                Some(k) => self.model().entries.dom().contains(name@) && self.model().entries[name@].0
                    == k && k < self.model().archives.len(),
                None => !self.model().entries.dom().contains(name@),
            },
    {
        match self.owners.get(name.as_str()) {
            Some(k) => Some(*k),
            None => None,
        }
    }
}

/// Merges loaded archives in input order, skipping those without a file
/// table; an entry of a later archive replaces one of the same name.
pub fn merge_headers(headers: &Vec<Option<ArchiveHeader>>) -> (r: MergedTable)
    ensures
        r.wf(),
        r.model() == merged_of(headers@),
{
    let mut merged = MergedTable::new();
    let mut i: usize = 0;
    while i < headers.len()
        invariant
            i <= headers@.len(),
            merged.wf(),
            merged.model() == merged_of(headers@.subrange(0, i as int)),
        decreases headers@.len() - i,
    {
        proof {
            let taken = headers@.subrange(0, i + 1);
            assert(taken.drop_last() =~= headers@.subrange(0, i as int));
            assert(taken.last() == headers@[i as int]);
        }
        match &headers[i] {
            Some(h) => merged.add_archive(h),
            None => {},
        }
        i = i + 1;
    }
    assert(headers@.subrange(0, i as int) =~= headers@);
    merged
}

/// The entries of one archive's table, each tagged with the archive `k`.
pub open spec fn tagged(k: usize, m: Map<Seq<char>, DescriptorModel>) -> Map<
    Seq<char>,
    (usize, DescriptorModel),
> {
    Map::new(|n: Seq<char>| m.dom().contains(n), |n: Seq<char>| (k, m[n]))
}

/// Folding in the files of archive `k` lays its table over the entries.
pub proof fn lemma_add_files_entries(st: MergedModel, k: usize, files: Seq<FileDescriptor>)
    ensures
        add_files(st, k, files).archives == st.archives,
        add_files(st, k, files).entries == st.entries.union_prefer_right(
            tagged(k, table_map(files)),
        ),
    decreases files.len(),
{
    if files.len() > 0 {
        lemma_add_files_entries(st, k, files.drop_last());
        assert(add_files(st, k, files).entries =~= st.entries.union_prefer_right(
            tagged(k, table_map(files)),
        ));
    }
}

/// Of the archives merged so far, the last one to define a name owns its
/// entry: folding in an archive that defines `x` makes `x` map to that
/// archive's descriptor and identity, whatever came before.
pub proof fn lemma_later_archive_wins(hs: Seq<Option<ArchiveHeader>>, h: ArchiveHeader, x: Seq<char>)
    requires
        table_map(h.files@).dom().contains(x),
    ensures
        ({
            let m = merged_of(hs.push(Some(h)));
            let k = merged_of(hs).archives.len();
            &&& m.entries.dom().contains(x)
            &&& m.entries[x].0 == k as usize
            &&& m.entries[x].1 == table_map(h.files@)[x]
            &&& m.archives.len() == k + 1
            &&& m.archives[k as int] == (h.archive_path@, h.output_root_path@)
        }),
{
    let prev = merged_of(hs);
    assert(hs.push(Some(h)).drop_last() =~= hs);
    let start = MergedModel {
        archives: prev.archives.push((h.archive_path@, h.output_root_path@)),
        entries: prev.entries,
        overrides: prev.overrides,
    };
    lemma_add_files_entries(start, prev.archives.len() as usize, h.files@);
    assert(merged_of(hs.push(Some(h))) == add_archive_model(prev, h));
    assert(add_archive_model(prev, h) == add_files(start, prev.archives.len() as usize, h.files@));
}

/// Override follows input order: merging `a` then `b`, both defining `x`,
/// gives `b`'s descriptor and identity for `x`.
pub proof fn lemma_merge_order(a: ArchiveHeader, b: ArchiveHeader, x: Seq<char>)
    requires
        table_map(a.files@).dom().contains(x),
        table_map(b.files@).dom().contains(x),
    ensures
        ({
            let m = merged_of(seq![Some(a), Some(b)]);
            &&& m.entries.dom().contains(x)
            &&& m.entries[x].0 == 1
            &&& m.entries[x].1 == table_map(b.files@)[x]
            &&& m.archives[1] == (b.archive_path@, b.output_root_path@)
        }),
{
    let first = seq![Some(a)];
    assert(first.drop_last() =~= Seq::<Option<ArchiveHeader>>::empty());
    lemma_later_archive_wins(Seq::empty(), a, x);
    assert(Seq::<Option<ArchiveHeader>>::empty().push(Some(a)) =~= first);
    lemma_later_archive_wins(first, b, x);
    assert(first.push(Some(b)) =~= seq![Some(a), Some(b)]);
}

} // verus!
