use little_exif::bytes::insert_multiple_at;
use little_exif::bytes::range_remove;
use little_exif::metadata::Endian;
use little_exif::metadata::ExifTag;
use little_exif::metadata::ExifTagGroup;
use little_exif::metadata::Metadata;

#[test]
fn get_ifd_mut_twice_creates_one_directory() {
    let mut m = Metadata::new();
    assert_eq!(m.get_ifds().len(), 0);
    m.get_ifd_mut(ExifTagGroup::GPS, 0)
        .set_tag(ExifTag::new(0x0001, ExifTagGroup::GPS, vec![b'N']));
    let d = m.get_ifd_mut(ExifTagGroup::GPS, 0);
    assert_eq!(d.get_tags().len(), 1);
    assert_eq!(d.get_tags()[0].as_u16(), 0x0001);
    assert_eq!(m.get_ifds().len(), 1);
}

#[test]
fn directories_stay_sorted_by_key() {
    let mut m = Metadata::new_with_endian(Endian::Big);
    m.get_ifd_mut(ExifTagGroup::GPS, 0);
    m.get_ifd_mut(ExifTagGroup::GENERIC, 1);
    m.get_ifd_mut(ExifTagGroup::GENERIC, 0);
    m.get_ifd_mut(ExifTagGroup::EXIF, 0);
    let keys: Vec<(u32, ExifTagGroup)> = m
        .get_ifds()
        .iter()
        .map(|d| (d.get_generic_ifd_nr(), d.get_ifd_type()))
        .collect();
    assert_eq!(
        keys,
        vec![
            (0, ExifTagGroup::GENERIC),
            (0, ExifTagGroup::EXIF),
            (0, ExifTagGroup::GPS),
            (1, ExifTagGroup::GENERIC)
        ]
    );
    assert_eq!(m.get_endian(), Endian::Big);
}

#[test]
fn get_ifd_finds_only_existing() {
    let mut m = Metadata::new();
    assert!(m.get_ifd(ExifTagGroup::EXIF, 0).is_none());
    m.get_ifd_mut(ExifTagGroup::EXIF, 0);
    let d = m.get_ifd(ExifTagGroup::EXIF, 0).unwrap();
    assert_eq!(d.get_ifd_type(), ExifTagGroup::EXIF);
    assert_eq!(d.get_generic_ifd_nr(), 0);
    assert!(m.get_ifd(ExifTagGroup::EXIF, 1).is_none());
    assert_eq!(m.get_endian(), Endian::Little);
}

#[test]
fn tag_iterator_yields_matches_in_order() {
    let mut m = Metadata::new();
    {
        let a = m.get_ifd_mut(ExifTagGroup::GENERIC, 0);
        a.set_tag(ExifTag::new(5, ExifTagGroup::GENERIC, vec![b'x']));
        a.set_tag(ExifTag::new(7, ExifTagGroup::GENERIC, vec![b'y']));
    }
    m.get_ifd_mut(ExifTagGroup::EXIF, 0)
        .set_tag(ExifTag::new(5, ExifTagGroup::EXIF, vec![b'z']));
    let mut it = m.get_tag_by_hex(5);
    assert_eq!(it.next().unwrap().value, vec![b'x']);
    assert_eq!(it.next().unwrap().value, vec![b'z']);
    assert!(it.next().is_none());
    assert!(it.next().is_none());
    let probe = ExifTag::new(7, ExifTagGroup::GENERIC, vec![]);
    let mut it = m.get_tag(&probe);
    assert_eq!(it.next().unwrap().value, vec![b'y']);
    assert!(it.next().is_none());
}

#[test]
fn set_tag_replaces_same_code() {
    let mut m = Metadata::new();
    let d = m.get_ifd_mut(ExifTagGroup::GENERIC, 0);
    d.set_tag(ExifTag::new(5, ExifTagGroup::GENERIC, vec![1]));
    d.set_tag(ExifTag::new(5, ExifTagGroup::GENERIC, vec![2]));
    assert_eq!(d.get_tags().len(), 1);
    assert_eq!(d.get_tags()[0].value, vec![2]);
    assert_eq!(d.get_tags()[0].get_group(), ExifTagGroup::GENERIC);
}

#[test]
fn splicing_removes_and_inserts_ranges() {
    let mut v = vec![1u8, 2, 3, 4, 5, 6];
    range_remove(&mut v, 1, 4);
    assert_eq!(v, vec![1, 5, 6]);
    insert_multiple_at(&mut v, 1, &vec![9, 8]);
    assert_eq!(v, vec![1, 9, 8, 5, 6]);
    insert_multiple_at(&mut v, 5, &vec![7]);
    assert_eq!(v, vec![1, 9, 8, 5, 6, 7]);
}
