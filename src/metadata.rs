//! The metadata model: endianness, tags, image file directories (IFDs) and
//! the container that keeps its IFDs sorted by identity key.

use vstd::prelude::*;

verus! {

/// Byte order that governs multi-byte tag values.
#[derive(Clone, Copy, Debug, PartialEq, Eq, Structural)]
pub enum Endian {
    Big,
    Little,
}

/// The group classifier of a tag and of the directory that holds it.
#[derive(Clone, Copy, Debug, PartialEq, Eq, Structural)]
pub enum ExifTagGroup {
    GENERIC,
    EXIF,
    INTEROP,
    GPS,
}

impl ExifTagGroup {
    /// Position of the group in the canonical directory order.
    pub open spec fn rank(self) -> nat {
        match self {
            ExifTagGroup::GENERIC => 0,
            ExifTagGroup::EXIF => 1,
            ExifTagGroup::INTEROP => 2,
            ExifTagGroup::GPS => 3,
        }
    }

    pub fn order_rank(&self) -> (r: u8)
        ensures
            r as nat == self.rank(),
    {
        match self {
            ExifTagGroup::GENERIC => 0,
            ExifTagGroup::EXIF => 1,
            ExifTagGroup::INTEROP => 2,
            ExifTagGroup::GPS => 3,
        }
    }
}

/// A tag: a 16-bit code, the group it belongs to and its raw value bytes.
#[derive(Debug)]
pub struct ExifTag {
    pub code: u16,
    pub group: ExifTagGroup,
    pub value: Vec<u8>,
}

impl ExifTag {
    pub fn new(code: u16, group: ExifTagGroup, value: Vec<u8>) -> (r: ExifTag)
        ensures
            r.code == code,
            r.group == group,
            r.value@ == value@,
    {
        ExifTag { code, group, value }
    }

    pub fn as_u16(&self) -> (r: u16)
        ensures
            r == self.code,
    {
        self.code
    }

    pub fn get_group(&self) -> (r: ExifTagGroup)
        ensures
            r == self.group,
    {
        self.group
    }
}

/// An ordered collection of tags, identified by its group and its generic
/// IFD number.
#[derive(Debug)]
pub struct ImageFileDirectory {
    tags: Vec<ExifTag>,
    ifd_type: ExifTagGroup,
    generic_ifd_nr: u32,
}

impl ImageFileDirectory {
    pub closed spec fn tags(&self) -> Seq<ExifTag> {
        self.tags@
    }

    pub closed spec fn group(&self) -> ExifTagGroup {
        self.ifd_type
    }

    pub closed spec fn nr(&self) -> u32 {
        self.generic_ifd_nr
    }

    /// The directory has the identity key (`group`, `nr`).
    pub open spec fn has_key(&self, group: ExifTagGroup, nr: u32) -> bool {
        self.group() == group && self.nr() == nr
    }

    /// Canonical order of identity keys: by generic IFD number, then group.
    pub open spec fn key_before(group_a: ExifTagGroup, nr_a: u32, group_b: ExifTagGroup, nr_b: u32) -> bool {
        nr_a < nr_b || (nr_a == nr_b && group_a.rank() < group_b.rank())
    }

    pub fn new_with_tags(tags: Vec<ExifTag>, group: ExifTagGroup, generic_ifd_nr: u32) -> (r: ImageFileDirectory)
        ensures
            r.tags() == tags@,
            r.has_key(group, generic_ifd_nr),
    {
        ImageFileDirectory { tags, ifd_type: group, generic_ifd_nr }
    }

    pub fn get_tags(&self) -> (r: &Vec<ExifTag>)
        ensures
            r@ == self.tags(),
    {
        &self.tags
    }

    pub fn get_ifd_type(&self) -> (r: ExifTagGroup)
        ensures
            r == self.group(),
    {
        self.ifd_type
    }

    pub fn get_generic_ifd_nr(&self) -> (r: u32)
        ensures
            r == self.nr(),
    {
        self.generic_ifd_nr
    }

    /// Stores `tag`: it replaces the first tag with the same code, or is
    /// appended when there is none. The identity key is kept.
    pub fn set_tag(&mut self, tag: ExifTag)
        ensures
            final(self).group() == old(self).group(),
            final(self).nr() == old(self).nr(),
            (forall|i: int| 0 <= i < old(self).tags().len() ==> old(self).tags()[i].code != tag.code)
                ==> final(self).tags() == old(self).tags().push(tag),
            forall|i: int|
                0 <= i < old(self).tags().len() && old(self).tags()[i].code == tag.code
                    && (forall|j: int| 0 <= j < i ==> old(self).tags()[j].code != tag.code)
                    ==> final(self).tags() == old(self).tags().update(i, tag),
    {
        let mut i: usize = 0;
        while i < self.tags.len()
            invariant
                self.tags@ == old(self).tags@,
                self.ifd_type == old(self).ifd_type,
                self.generic_ifd_nr == old(self).generic_ifd_nr,
                i <= self.tags@.len(),
                forall|j: int| 0 <= j < i ==> self.tags@[j].code != tag.code,
            decreases self.tags@.len() - i,
        {
            if self.tags[i].code == tag.code {
                self.tags.set(i, tag);
                return;
            }
            i = i + 1;
        }
        self.tags.push(tag);
    }
}

/// The metadata of one image: its endianness and its IFDs, kept in the
/// canonical order of their identity keys.
pub struct Metadata {
    endian: Endian,
    image_file_directories: Vec<ImageFileDirectory>,
}

/// The directories are strictly ordered by identity key, so no key occurs
/// twice.
pub open spec fn ifds_sorted(ifds: Seq<ImageFileDirectory>) -> bool {
    forall|i: int, j: int|
        0 <= i < j < ifds.len() ==> #[trigger] ImageFileDirectory::key_before(
            ifds[i].group(),
            ifds[i].nr(),
            ifds[j].group(),
            ifds[j].nr(),
        )
}

/// What `get_ifd_mut` does to the directories: `before` and `after` are the
/// collections, `given` the directory handed out and `kept` what it holds
/// once the caller is done with it.
pub open spec fn ifd_mut_step(
    before: Seq<ImageFileDirectory>,
    after: Seq<ImageFileDirectory>,
    group: ExifTagGroup,
    nr: u32,
    given: ImageFileDirectory,
    kept: ImageFileDirectory,
) -> bool {
    &&& given.has_key(group, nr)
    &&& forall|i: int|
        0 <= i < before.len() && #[trigger] before[i].has_key(group, nr) ==> given == before[i] && after
            == before.update(i, kept)
    &&& (forall|i: int| 0 <= i < before.len() ==> !#[trigger] before[i].has_key(group, nr)) ==> {
        &&& given.tags().len() == 0
        &&& exists|p: int|
            #![trigger before.insert(p, kept)]
            0 <= p <= before.len() && after == before.insert(p, kept) && (forall|j: int|
                0 <= j < p ==> ImageFileDirectory::key_before(
                    #[trigger] before[j].group(),
                    before[j].nr(),
                    group,
                    nr,
                )) && (forall|j: int|
                p <= j < before.len() ==> ImageFileDirectory::key_before(
                    group,
                    nr,
                    #[trigger] before[j].group(),
                    before[j].nr(),
                ))
    }
}

/// Tags with code `code`, in traversal order: directories in container
/// order and, within one, tags in storage order, starting at tag `j` of
/// directory `i`.
pub open spec fn matching_from(ifds: Seq<ImageFileDirectory>, code: u16, i: int, j: int) -> Seq<ExifTag>
    decreases ifds.len() - i, ifds[i].tags().len() - j,
{
    if i < 0 || i >= ifds.len() || j < 0 {
        Seq::empty()
    } else if j >= ifds[i].tags().len() {
        matching_from(ifds, code, i + 1, 0)
    } else {
        let rest = matching_from(ifds, code, i, j + 1);
        if ifds[i].tags()[j].code == code {
            seq![ifds[i].tags()[j]].add(rest)
        } else {
            rest
        }
    }
}

/// Overwriting a freshly inserted element is inserting the new value.
proof fn lemma_insert_then_update<T>(s: Seq<T>, p: int, a: T)
    requires
        0 <= p <= s.len(),
    ensures
        forall|b: T| #[trigger] s.insert(p, a).update(p, b) == s.insert(p, b),
{
    assert forall|b: T| #[trigger] s.insert(p, a).update(p, b) == s.insert(p, b) by {
        assert(s.insert(p, a).update(p, b) =~= s.insert(p, b));
    }
}

impl Metadata {
    pub closed spec fn endian(&self) -> Endian {
        self.endian
    }

    pub closed spec fn ifds(&self) -> Seq<ImageFileDirectory> {
        self.image_file_directories@
    }

    pub open spec fn wf(&self) -> bool {
        ifds_sorted(self.ifds())
    }

    /// An empty container with little-endian byte order.
    pub fn new() -> (r: Metadata)
        ensures
            r.wf(),
            r.endian() == Endian::Little,
            r.ifds().len() == 0,
    {
        Metadata { endian: Endian::Little, image_file_directories: Vec::new() }
    }

    /// An empty container with the given byte order.
    pub fn new_with_endian(endian: Endian) -> (r: Metadata)
        ensures
            r.wf(),
            r.endian() == endian,
            r.ifds().len() == 0,
    {
        Metadata { endian, image_file_directories: Vec::new() }
    }

    pub fn get_endian(&self) -> (r: Endian)
        ensures
            r == self.endian(),
    {
        self.endian
    }

    pub fn get_ifds(&self) -> (r: &Vec<ImageFileDirectory>)
        ensures
            r@ == self.ifds(),
    {
        &self.image_file_directories
    }

    /// The first index whose key is not before (`group`, `nr`).
    fn key_position(&self, group: ExifTagGroup, nr: u32) -> (r: usize)
        ensures
            r <= self.ifds().len(),
            forall|j: int|
                0 <= j < r ==> ImageFileDirectory::key_before(
                    #[trigger] self.ifds()[j].group(),
                    self.ifds()[j].nr(),
                    group,
                    nr,
                ),
            r < self.ifds().len() ==> !ImageFileDirectory::key_before(
                self.ifds()[r as int].group(),
                self.ifds()[r as int].nr(),
                group,
                nr,
            ),
    {
        let rank = group.order_rank();
        let mut i: usize = 0;
        while i < self.image_file_directories.len()
            invariant
                i <= self.ifds().len(),
                rank as nat == group.rank(),
                forall|j: int|
                    0 <= j < i ==> ImageFileDirectory::key_before(
                        #[trigger] self.ifds()[j].group(),
                        self.ifds()[j].nr(),
                        group,
                        nr,
                    ),
            decreases self.ifds().len() - i,
        {
            let d = &self.image_file_directories[i];
            let before = d.generic_ifd_nr < nr || (d.generic_ifd_nr == nr && d.ifd_type.order_rank()
                < rank);
            if !before {
                return i;
            }
            i = i + 1;
        }
        i
    }

    /// The directory with identity key (`group`, `generic_ifd_nr`), if any.
    pub fn get_ifd(&self, group: ExifTagGroup, generic_ifd_nr: u32) -> (r: Option<&ImageFileDirectory>)
        requires
            self.wf(),
        ensures
            match r {
                Some(d) => exists|i: int|
                    0 <= i < self.ifds().len() && self.ifds()[i] == *d && d.has_key(group, generic_ifd_nr),
                None => forall|i: int|
                    0 <= i < self.ifds().len() ==> !#[trigger] self.ifds()[i].has_key(group, generic_ifd_nr),
            },
    {
        let p = self.key_position(group, generic_ifd_nr);
        if p < self.image_file_directories.len() {
            let d = &self.image_file_directories[p];
            if d.generic_ifd_nr == generic_ifd_nr && d.ifd_type == group {
                return Some(d);
            }
        }
        proof {
            assert forall|i: int| 0 <= i < self.ifds().len() implies !#[trigger] self.ifds()[i].has_key(
                group,
                generic_ifd_nr,
            ) by {
                if i >= p {
                    if i > p {
                        assert(ImageFileDirectory::key_before(
                            self.ifds()[p as int].group(),
                            self.ifds()[p as int].nr(),
                            self.ifds()[i].group(),
                            self.ifds()[i].nr(),
                        ));
                    }
                }
            }
        }
        None
    }

    /// The directory with identity key (`group`, `generic_ifd_nr`); when
    /// there is none, an empty one is created at its place in the order.
    /// Index of the directory with identity key (`group`, `nr`), inserting
    /// an empty one at its place in the order when there is none.
    fn place_ifd(&mut self, group: ExifTagGroup, nr: u32) -> (p: usize)
        requires
            old(self).wf(),
        ensures
            final(self).wf(),
            final(self).endian() == old(self).endian(),
            p < final(self).ifds().len(),
            p <= old(self).ifds().len(),
            final(self).ifds()[p as int].has_key(group, nr),
            forall|i: int|
                0 <= i < old(self).ifds().len() && #[trigger] old(self).ifds()[i].has_key(group, nr) ==> i
                    == p && final(self).ifds() == old(self).ifds(),
            (forall|i: int| 0 <= i < old(self).ifds().len() ==> !#[trigger] old(self).ifds()[i].has_key(group, nr))
                ==> {
                &&& final(self).ifds()[p as int].tags().len() == 0
                &&& final(self).ifds() == old(self).ifds().insert(p as int, final(self).ifds()[p as int])
                &&& forall|j: int|
                    0 <= j < p ==> ImageFileDirectory::key_before(
                        #[trigger] old(self).ifds()[j].group(),
                        old(self).ifds()[j].nr(),
                        group,
                        nr,
                    )
                &&& forall|j: int|
                    p <= j < old(self).ifds().len() ==> ImageFileDirectory::key_before(
                        group,
                        nr,
                        #[trigger] old(self).ifds()[j].group(),
                        old(self).ifds()[j].nr(),
                    )
            },
    {
        let p = self.key_position(group, nr);
        let found = p < self.image_file_directories.len() && self.image_file_directories[p].generic_ifd_nr
            == nr && self.image_file_directories[p].ifd_type == group;
        proof {
            if !found {
                assert forall|i: int| 0 <= i < self.ifds().len() implies !#[trigger] self.ifds()[i].has_key(
                    group,
                    nr,
                ) by {
                    if i > p {
                        assert(ImageFileDirectory::key_before(
                            self.ifds()[p as int].group(),
                            self.ifds()[p as int].nr(),
                            self.ifds()[i].group(),
                            self.ifds()[i].nr(),
                        ));
                    }
                }
                assert forall|j: int| p <= j < self.ifds().len() implies ImageFileDirectory::key_before(
                    group,
                    nr,
                    #[trigger] self.ifds()[j].group(),
                    self.ifds()[j].nr(),
                ) by {
                    if j > p {
                        assert(ImageFileDirectory::key_before(
                            self.ifds()[p as int].group(),
                            self.ifds()[p as int].nr(),
                            self.ifds()[j].group(),
                            self.ifds()[j].nr(),
                        ));
                    }
                }
            } else {
                assert(self.ifds()[p as int].has_key(group, nr));
                assert forall|i: int|
                    0 <= i < self.ifds().len() && #[trigger] self.ifds()[i].has_key(group, nr) implies i
                    == p by {
                    if i > p {
                        assert(ImageFileDirectory::key_before(
                            self.ifds()[p as int].group(),
                            self.ifds()[p as int].nr(),
                            self.ifds()[i].group(),
                            self.ifds()[i].nr(),
                        ));
                    }
                }
            }
        }
        if !found {
            let d = ImageFileDirectory::new_with_tags(Vec::new(), group, nr);
            self.image_file_directories.insert(p, d);
            assert(self.ifds() =~= old(self).ifds().insert(p as int, self.ifds()[p as int]));
        }
        p
    }

    /// The directory with identity key (`group`, `generic_ifd_nr`); when
    /// there is none, an empty one is created at its place in the order.
    pub fn get_ifd_mut(&mut self, group: ExifTagGroup, generic_ifd_nr: u32) -> (r: &mut ImageFileDirectory)
        requires
            old(self).wf(),
        ensures
            final(self).endian() == old(self).endian(),
            ifd_mut_step(old(self).ifds(), final(self).ifds(), group, generic_ifd_nr, *r, *final(r)),
            final(r).has_key(group, generic_ifd_nr) ==> final(self).wf(),
    {
        let p = self.place_ifd(group, generic_ifd_nr);
        proof {
            lemma_insert_then_update(old(self).ifds(), p as int, self.ifds()[p as int]);
        }
        &mut self.image_file_directories[p]
    }

    /// Every tag with the code of `tag`, over all directories.
    pub fn get_tag(&self, tag: &ExifTag) -> (r: GetTagIterator<'_>)
        ensures
            r.pending() == matching_from(self.ifds(), tag.code, 0, 0),
    {
        self.get_tag_by_hex(tag.as_u16())
    }

    /// Every tag with code `hex`, over all directories.
    pub fn get_tag_by_hex(&self, hex: u16) -> (r: GetTagIterator<'_>)
        ensures
            r.pending() == matching_from(self.ifds(), hex, 0, 0),
    {
        GetTagIterator { metadata: self, current_ifd_index: 0, current_tag_index: 0, tag_hex_value: hex }
    }
}

/// A single forward pass over the tags of a container that have a given code.
pub struct GetTagIterator<'a> {
    metadata: &'a Metadata,
    current_ifd_index: usize,
    current_tag_index: usize,
    tag_hex_value: u16,
}

impl<'a> GetTagIterator<'a> {
    /// The tags that are still to come, in order.
    pub closed spec fn pending(&self) -> Seq<ExifTag> {
        matching_from(
            self.metadata.ifds(),
            self.tag_hex_value,
            self.current_ifd_index as int,
            self.current_tag_index as int,
        )
    }

    /// The next matching tag, or `None` once every directory is consumed.
    pub fn next(&mut self) -> (r: Option<&'a ExifTag>)
        ensures
            old(self).pending().len() == 0 ==> r is None && final(self).pending().len() == 0,
            old(self).pending().len() > 0 ==> r == Some(&old(self).pending()[0]) && final(self).pending()
                == old(self).pending().drop_first(),
    {
        let m: &'a Metadata = self.metadata;
        while self.current_ifd_index < m.image_file_directories.len()
            invariant
                self.metadata == m,
                self.tag_hex_value == old(self).tag_hex_value,
                self.pending() == old(self).pending(),
            decreases
                m.ifds().len() - self.current_ifd_index,
                m.ifds()[self.current_ifd_index as int].tags().len() - self.current_tag_index,
        {
            let i = self.current_ifd_index;
            let j = self.current_tag_index;
            if j < m.image_file_directories[i].tags.len() {
                self.current_tag_index = j + 1;
                let t = &m.image_file_directories[i].tags[j];
                if t.code == self.tag_hex_value {
                    return Some(t);
                }
            } else {
                self.current_tag_index = 0;
                self.current_ifd_index = i + 1;
            }
        }
        None
    }
}

/// Asking twice for the same directory creates it at most once: the second
/// call hands out what the first one left, and the collection grows by one
/// only where the key was absent (so from empty, to exactly one directory).
pub proof fn lemma_get_ifd_mut_twice(
    before: Seq<ImageFileDirectory>,
    mid: Seq<ImageFileDirectory>,
    after: Seq<ImageFileDirectory>,
    group: ExifTagGroup,
    nr: u32,
    given1: ImageFileDirectory,
    kept1: ImageFileDirectory,
    given2: ImageFileDirectory,
    kept2: ImageFileDirectory,
)
    requires
        ifds_sorted(before),
        ifd_mut_step(before, mid, group, nr, given1, kept1),
        kept1.has_key(group, nr),
        ifd_mut_step(mid, after, group, nr, given2, kept2),
    ensures
        given2 == kept1,
        after.len() == mid.len(),
        (exists|i: int| 0 <= i < before.len() && #[trigger] before[i].has_key(group, nr)) ==> mid.len()
            == before.len(),
        (forall|i: int| 0 <= i < before.len() ==> !#[trigger] before[i].has_key(group, nr)) ==> mid.len()
            == before.len() + 1,
        before.len() == 0 ==> after.len() == 1,
{
    if exists|i: int| 0 <= i < before.len() && #[trigger] before[i].has_key(group, nr) {
        let i = choose|i: int| 0 <= i < before.len() && #[trigger] before[i].has_key(group, nr);
        assert(mid == before.update(i, kept1));
        assert(mid[i].has_key(group, nr));
    } else {
        let p = choose|p: int|
            #![trigger before.insert(p, kept1)]
            0 <= p <= before.len() && mid == before.insert(p, kept1) && (forall|j: int|
                0 <= j < p ==> ImageFileDirectory::key_before(
                    #[trigger] before[j].group(),
                    before[j].nr(),
                    group,
                    nr,
                )) && (forall|j: int|
                p <= j < before.len() ==> ImageFileDirectory::key_before(
                    group,
                    nr,
                    #[trigger] before[j].group(),
                    before[j].nr(),
                ));
        assert(mid[p] == kept1);
        assert(mid[p].has_key(group, nr));
    }
}

} // verus!
