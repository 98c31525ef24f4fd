use lost_commander::entry::EntryKind;
use lost_commander::moment::Moment;
use lost_commander::pathname::Style;
use lost_commander::perms::{
    kind_char, name_for, name_in, read, Looked, Mode, Properties, What, Who, SETGID, SETUID,
    STICKY,
};
use lost_commander::trouble::{Trouble, TroubleKind};

#[test]
fn the_nine_bits_read_the_way_ls_writes_them() {
    assert_eq!(Mode::from_bits(0o755).symbolic(), "rwxr-xr-x");
    assert_eq!(Mode::from_bits(0o644).symbolic(), "rw-r--r--");
    assert_eq!(Mode::from_bits(0o600).symbolic(), "rw-------");
    assert_eq!(Mode::from_bits(0o777).symbolic(), "rwxrwxrwx");
    assert_eq!(Mode::from_bits(0o000).symbolic(), "---------");
}

#[test]
fn a_special_bit_replaces_an_execute_character_rather_than_adding_one() {
    // setuid with execute, and without - the capital is how you tell that
    // the second one is almost certainly a mistake.
    assert_eq!(Mode::from_bits(0o4755).symbolic(), "rwsr-xr-x");
    assert_eq!(Mode::from_bits(0o4644).symbolic(), "rwSr--r--");
    assert_eq!(Mode::from_bits(0o2755).symbolic(), "rwxr-sr-x");
    assert_eq!(Mode::from_bits(0o2644).symbolic(), "rw-r-Sr--");
    // /tmp, which is the sticky bit's whole reason for existing.
    assert_eq!(Mode::from_bits(0o1777).symbolic(), "rwxrwxrwt");
    assert_eq!(Mode::from_bits(0o1666).symbolic(), "rw-rw-rwT");
    // ...and all three at once still has nine characters.
    assert_eq!(Mode::from_bits(0o7777).symbolic().len(), 9);
}

#[test]
fn the_octal_grows_a_digit_only_when_it_has_to() {
    assert_eq!(Mode::from_bits(0o755).octal(), "755");
    assert_eq!(Mode::from_bits(0o007).octal(), "007");
    assert_eq!(Mode::from_bits(0o4755).octal(), "4755");
    assert_eq!(Mode::from_bits(0o1777).octal(), "1777");
}

#[test]
fn the_octal_reads_back_what_it_wrote() {
    for bits in [0o755, 0o644, 0o000, 0o777, 0o4755, 0o2750, 0o1777, 0o7777] {
        let mode = Mode::from_bits(bits);
        assert_eq!(Mode::parse_octal(&mode.octal()), Some(mode), "{bits:o}");
    }
    // Leading zero, as anyone types it.
    assert_eq!(Mode::parse_octal("0755"), Some(Mode::from_bits(0o755)));
}

#[test]
fn what_is_not_an_octal_mode_is_refused() {
    for text in ["", "  ", "8", "99", "75x", "12345", "-1", "0o755"] {
        assert_eq!(Mode::parse_octal(text), None, "{text:?}");
    }
}

#[test]
fn a_bit_can_be_read_set_and_cleared() {
    let mut mode = Mode::from_bits(0o644);
    assert!(mode.is_set(Who::Owner, What::Read));
    assert!(mode.is_set(Who::Owner, What::Write));
    assert!(!mode.is_set(Who::Owner, What::Execute));
    assert!(!mode.is_set(Who::Other, What::Write));

    mode.set(Who::Owner, What::Execute, true);
    assert_eq!(mode.octal(), "744");
    mode.set(Who::Other, What::Read, false);
    assert_eq!(mode.octal(), "740");
    // Setting what is already set changes nothing.
    mode.set(Who::Owner, What::Execute, true);
    assert_eq!(mode.octal(), "740");
}

#[test]
fn every_bit_of_the_grid_is_its_own() {
    // Nine checkboxes, nine bits, no two the same.
    let mut seen = Vec::new();
    for who in Who::ALL {
        for what in What::ALL {
            let mut mode = Mode::default();
            mode.set(who, what, true);
            assert!(!seen.contains(&mode.bits()), "{who:?}/{what:?} collided");
            seen.push(mode.bits());
        }
    }
    assert_eq!(seen.len(), 9);
    assert_eq!(seen.iter().fold(0, |a, b| a | b), 0o777);
}

#[test]
fn the_special_bits_are_their_own_too() {
    let mut mode = Mode::from_bits(0o755);
    assert!(!mode.has(SETUID));
    mode.set_special(SETUID, true);
    assert_eq!(mode.octal(), "4755");
    mode.set_special(STICKY, true);
    assert_eq!(mode.octal(), "5755");
    mode.set_special(SETUID, false);
    assert_eq!(mode.octal(), "1755");
}

#[test]
fn the_file_type_is_not_part_of_the_permissions() {
    // st_mode carries the type in its high bits; editing those with a
    // checkbox would turn a file into something else.
    let regular = 0o100_644; // S_IFREG | 0644
    assert_eq!(Mode::from_bits(regular).octal(), "644");
    let directory = 0o040_755; // S_IFDIR | 0755
    assert_eq!(Mode::from_bits(directory).octal(), "755");
}

#[test]
fn the_kind_character_is_the_one_ls_uses() {
    assert_eq!(kind_char(EntryKind::File, false), '-');
    assert_eq!(kind_char(EntryKind::Dir, false), 'd');
    // A link is a link whatever it points at.
    assert_eq!(kind_char(EntryKind::File, true), 'l');
    assert_eq!(kind_char(EntryKind::Dir, true), 'l');
}

#[test]
fn a_name_is_looked_up_by_its_number() {
    let passwd = "root:x:0:0:root:/root:/bin/bash\n\
                  daemon:x:1:1:daemon:/usr/sbin:/usr/sbin/nologin\n\
                  user:x:1000:1000:A User:/home/user:/bin/bash\n";
    assert_eq!(name_in(passwd, 0).as_deref(), Some("root"));
    assert_eq!(name_in(passwd, 1000).as_deref(), Some("user"));
    // An id with no local entry has no name here - the caller shows the
    // number, which is what `ls -n` would say anyway.
    assert_eq!(name_in(passwd, 4242), None);
}

#[test]
fn a_malformed_passwd_line_is_stepped_over() {
    let passwd = "\n\
                  not-a-line\n\
                  broken:x\n\
                  user:x:1000:1000::/home/user:/bin/sh\n";
    assert_eq!(name_in(passwd, 1000).as_deref(), Some("user"));
    assert_eq!(name_in("", 0), None);
}

#[test]
fn setting_the_group_bit_leaves_the_rest() {
    let mut mode = Mode::from_bits(0o640);
    mode.set_special(SETGID, true);
    assert_eq!(mode.bits(), 0o2640);
    assert!(mode.has(SETGID));
}

#[test]
fn properties_are_named_after_the_last_part_of_the_path() {
    let properties = Properties {
        path: "/tmp/notes.txt".to_string(),
        kind: EntryKind::File,
        size: 5,
        modified: None,
        accessed: None,
        created: None,
        is_symlink: false,
        link_target: None,
        mode: Some(Mode::from_bits(0o640)),
        owner: None,
        group: None,
        readonly: false,
    };
    assert_eq!(properties.name(Style::Unix), "notes.txt");
}

#[test]
fn an_id_without_a_name_is_called_by_its_number() {
    let passwd = "root:x:0:0:root:/root:/bin/bash\n";
    assert_eq!(name_for(0, Some(passwd)), "root");
    assert_eq!(name_for(4242, Some(passwd)), "4242");
    assert_eq!(name_for(0, None), "0");
}

fn looked() -> Looked {
    Looked {
        is_dir: false,
        is_symlink: false,
        size: 5,
        modified: Some(Moment::from_seconds(100)),
        accessed: None,
        created: None,
        link_target: None,
        mode: Some(0o100644),
        owner: Some(1000),
        group: Some(50),
        readonly: false,
    }
}

#[test]
fn reading_something_that_is_not_there_is_an_error() {
    let missing = Trouble::new(TroubleKind::NotFound, "no such file");
    let read = read("/no/such/file", Err(missing.clone()), None, None);
    assert!(read.is_err());
    assert_eq!(read, Err(missing));
}

#[test]
fn properties_say_what_the_file_system_said() {
    let users = "root:x:0:0:root:/root:/bin/sh\nalex:x:1000:1000::/home/alex:/bin/bash\n";
    let groups = "root:x:0:\nstaff:x:500:\n";
    let file = read("/home/alex/a.txt", Ok(looked()), Some(users), Some(groups)).unwrap();
    assert_eq!(file.name(Style::Unix), "a.txt");
    assert_eq!(file.kind, EntryKind::File);
    assert_eq!(file.size, 5);
    assert_eq!(file.modified, Some(Moment::from_seconds(100)));
    assert_eq!(file.mode, Some(Mode::from_bits(0o644)));
    assert_eq!(file.owner.as_deref(), Some("alex"));
    assert_eq!(file.group.as_deref(), Some("50"), "no such group, so its number");
    assert!(!file.readonly);

    let dir = Looked { is_dir: true, ..looked() };
    assert_eq!(read("/tmp", Ok(dir), None, None).unwrap().kind, EntryKind::Dir);
}

#[test]
fn the_read_only_flag_can_be_turned_both_ways() {
    for readonly in [true, false] {
        let file = Looked { readonly, ..looked() };
        assert_eq!(read("/a", Ok(file), None, None).unwrap().readonly, readonly);
    }
}

#[test]
fn a_symlink_reports_itself_and_where_it_points() {
    // Not its target: the dialog is about the file that was selected.
    let target = Some("/tmp/real.txt".to_string());
    let link = Looked { is_symlink: true, link_target: target.clone(), size: 13, ..looked() };
    let properties = read("/tmp/link.txt", Ok(link), None, None).unwrap();
    assert!(properties.is_symlink);
    assert_eq!(properties.link_target, target);
    assert_ne!(properties.size, 27, "it reported the target's size");
}

#[test]
fn properties_are_read_from_the_file_and_written_back() {
    let file = Looked { mode: Some(0o100640), ..looked() };
    let properties = read("/tmp/notes.txt", Ok(file.clone()), None, None).unwrap();
    assert_eq!(properties.name(Style::Unix), "notes.txt");
    assert_eq!(properties.size, 5);
    assert_eq!(properties.kind, EntryKind::File);
    assert!(!properties.is_symlink);
    assert_eq!(properties.mode.unwrap().octal(), "640");
    assert!(properties.owner.is_some());
    assert!(properties.modified.is_some());

    let changed = Looked { mode: Some(Mode::from_bits(0o600).bits()), ..file };
    let properties = read("/tmp/notes.txt", Ok(changed), None, None).unwrap();
    assert_eq!(properties.mode.unwrap().octal(), "600");
}

#[test]
fn only_a_link_points_anywhere() {
    let target = Some("/etc/hosts".to_string());
    let link = Looked { is_symlink: true, link_target: target.clone(), ..looked() };
    let properties = read("/link", Ok(link), None, None).unwrap();
    assert!(properties.is_symlink);
    assert_eq!(properties.link_target, target);

    let file = Looked { link_target: target, ..looked() };
    assert_eq!(read("/a", Ok(file), None, None).unwrap().link_target, None);
}

#[test]
fn what_a_system_does_not_have_stays_absent() {
    let bare = Looked { mode: None, owner: None, group: None, ..looked() };
    let properties = read("C:/a", Ok(bare), Some("a:x:0:"), Some("b:x:0:")).unwrap();
    assert_eq!(properties.mode, None);
    assert_eq!(properties.owner, None);
    assert_eq!(properties.group, None);
}
