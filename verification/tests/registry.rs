use lutils::mount::{Blkid, BlkidList};

const LISTING: &str = r#"/dev/nvme0n1p1: UUID="0A1B-2C3D" BLOCK_SIZE="512" TYPE="vfat" PARTUUID="pu-1"
/dev/nvme0n1p2: LABEL="root" UUID="r-1" BLOCK_SIZE="4096" TYPE="ext4" PARTUUID="pu-2"
/dev/sdx1: BLOCK_SIZE="512"

/dev/sda1: LABEL="data" UUID="d-1" TYPE="ext4" PARTUUID="pu-3"
/dev/sda2: LABEL="SYS" UUID="ABC-123" TYPE="ntfs" PARTUUID="xyz"
/dev/sdb1: LABEL="data" UUID="d-2" TYPE="ext4" PARTUUID="pu-4"
/dev/sdc1: LABEL="SYS" UUID="DEF-456" TYPE="ntfs" PARTUUID="pu-5"
"#;

const MOUNTS: &str = "/dev/nvme0n1p2 / ext4 rw,relatime 0 0\n\
/dev/nvme0n1p1 /boot/efi vfat rw 0 0\n\
/dev/sda1 /mnt/data ext4 rw 0 0\n";

fn names(records: &[&Blkid]) -> Vec<String> {
    records.iter().map(|b| b.name.clone()).collect()
}

#[test]
fn registry_keeps_identity_lines_in_order() {
    let list = BlkidList::new(LISTING, MOUNTS);
    let names: Vec<&str> = list.blkids.iter().map(|b| b.name.as_str()).collect();
    assert_eq!(
        names,
        vec!["/dev/nvme0n1p1", "/dev/nvme0n1p2", "/dev/sda1", "/dev/sda2", "/dev/sdb1", "/dev/sdc1"]
    );
    let mounted: Vec<bool> = list.blkids.iter().map(|b| b.is_mount).collect();
    assert_eq!(mounted, vec![true, true, true, false, false, false]);
}

#[test]
fn registry_drops_a_line_without_uuid_and_type() {
    let text = "/dev/sdx1: BLOCK_SIZE=\"512\"\n/dev/sda2: LABEL=\"SYS\" UUID=\"ABC-123\" TYPE=\"ntfs\" PARTUUID=\"xyz\"";
    let list = BlkidList::new(text, "");
    assert_eq!(list.blkids.len(), 1);
    assert_eq!(list.blkids[0].name, "/dev/sda2");
    let list = BlkidList::new("/dev/sda2: LABEL=\"SYS\" UUID=\"ABC-123\" TYPE=\"ntfs\"\n/dev/sdx1: BLOCK_SIZE=\"512\"\n", "");
    assert_eq!(list.blkids.len(), 1);
    assert_eq!(list.blkids[0].name, "/dev/sda2");
}

#[test]
fn registry_of_nothing_is_empty() {
    assert_eq!(BlkidList::new("", MOUNTS).blkids.len(), 0);
    assert_eq!(BlkidList::new("\n\n\n", MOUNTS).blkids.len(), 0);
    assert_eq!(BlkidList::new("no device here\nnor here", MOUNTS).blkids.len(), 0);
}

#[test]
fn registry_record_is_the_record_of_its_line() {
    let list = BlkidList::new(LISTING, MOUNTS);
    let line = r#"/dev/sda2: LABEL="SYS" UUID="ABC-123" TYPE="ntfs" PARTUUID="xyz""#;
    let alone = Blkid::new(line, MOUNTS).unwrap();
    let b = &list.blkids[3];
    assert_eq!(b.name, alone.name);
    assert_eq!(b.label, alone.label);
    assert_eq!(b.uuid, alone.uuid);
    assert_eq!(b.d_type, alone.d_type);
    assert_eq!(b.partuuid, alone.partuuid);
    assert_eq!(b.is_mount, alone.is_mount);
}

#[test]
fn mountable_records_have_a_label_and_are_not_mounted() {
    let list = BlkidList::new(LISTING, MOUNTS);
    let offered = list.get_label_device();
    assert_eq!(names(&offered), vec!["/dev/sda2", "/dev/sdb1", "/dev/sdc1"]);
    for b in offered {
        assert!(!b.label.is_empty());
        assert!(!b.is_mount);
    }
}

#[test]
fn mountable_includes_the_unmounted_device() {
    let line = r#"/dev/sda2: LABEL="SYS" UUID="ABC-123" TYPE="ntfs" PARTUUID="xyz""#;
    let list = BlkidList::new(line, "/dev/sdb4 /mnt/data ext4 rw 0 0\n");
    assert_eq!(names(&list.get_label_device()), vec!["/dev/sda2"]);
    assert_eq!(list.find_device("SYS").unwrap().name, "/dev/sda2");
}

#[test]
fn mountable_excludes_the_mounted_device() {
    let line = r#"/dev/sda2: LABEL="SYS" UUID="ABC-123" TYPE="ntfs" PARTUUID="xyz""#;
    let list = BlkidList::new(line, "/dev/sda2 /mnt/SYS ntfs rw 0 0\n");
    assert_eq!(list.blkids.len(), 1);
    assert!(list.blkids[0].is_mount);
    assert!(list.get_label_device().is_empty());
    assert!(list.find_device("SYS").is_none());
}

#[test]
fn find_takes_the_first_unmounted_record_with_the_label() {
    let list = BlkidList::new(LISTING, MOUNTS);
    assert_eq!(list.find_device("SYS").unwrap().name, "/dev/sda2");
    assert_eq!(list.find_device("data").unwrap().name, "/dev/sdb1");
}

#[test]
fn find_never_gives_a_mounted_record() {
    let list = BlkidList::new(LISTING, MOUNTS);
    assert!(list.find_device("root").is_none());
    for label in ["root", "data", "SYS", "", "none"] {
        if let Some(b) = list.find_device(label) {
            assert!(!b.is_mount);
            assert_eq!(b.label, label);
        }
    }
}

#[test]
fn find_does_not_answer_to_an_unknown_or_empty_label() {
    let list = BlkidList::new(LISTING, MOUNTS);
    assert!(list.find_device("sys").is_none());
    assert!(list.find_device("SY").is_none());
    assert!(list.find_device("").is_none());
    assert!(BlkidList::new("", "").find_device("SYS").is_none());
}

#[test]
fn table_of_a_registry() {
    let text = "/dev/sda2: LABEL=\"SYS\" UUID=\"ABC-123\" TYPE=\"ntfs\" PARTUUID=\"xyz\"\n/dev/sdb4: UUID=\"u\" TYPE=\"ext4\"\n";
    let list = BlkidList::new(text, "/dev/sdb4 /mnt/data ext4 rw 0 0\n");
    assert_eq!(
        list.to_string(),
        "Name     |Label    |UUID     |Type     |PartUUID |IsMount  |\n\
         /dev/sda2\tSYS\tABC-123\tntfs\txyz\tfalse\n\n\
         /dev/sdb4\t\tu\text4\t\ttrue\n\n"
    );
    assert_eq!(
        BlkidList::new("", "").to_string(),
        "Name     |Label    |UUID     |Type     |PartUUID |IsMount  |\n"
    );
}

#[test]
fn table_holds_every_field_of_every_record() {
    let list = BlkidList::new(LISTING, MOUNTS);
    let table = list.to_string();
    for b in list.blkids.iter() {
        let row = b.to_string();
        assert!(table.contains(&row));
        assert!(row.contains(&b.name));
        assert!(row.contains(&b.label));
        assert!(row.contains(&b.uuid));
        assert!(row.contains(&b.d_type));
        assert!(row.contains(&b.partuuid));
        assert!(row.contains(if b.is_mount { "true" } else { "false" }));
    }
    let full = Blkid::new(r#"/dev/sda2: LABEL="SYS" UUID="ABC-123" TYPE="ntfs" PARTUUID="xyz""#, "").unwrap();
    let row = full.to_string();
    for field in ["/dev/sda2", "SYS", "ABC-123", "ntfs", "xyz", "false"] {
        assert!(row.contains(field));
    }
}

#[test]
fn registry_is_stale_until_it_is_built_again() {
    let line = r#"/dev/sda2: LABEL="SYS" UUID="ABC-123" TYPE="ntfs" PARTUUID="xyz""#;
    let list = BlkidList::new(line, "");
    assert!(list.find_device("SYS").is_some());
    let later = "/dev/sda2 /mnt/SYS ntfs rw 0 0\n";
    assert!(list.find_device("SYS").is_some());
    assert!(!list.blkids[0].is_mount);
    let again = BlkidList::new(line, later);
    assert!(again.find_device("SYS").is_none());
    assert!(again.blkids[0].is_mount);
}
