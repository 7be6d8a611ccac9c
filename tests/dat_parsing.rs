use romshelf::dat::{parse_dat, parse_dat_calls, parse_size, DatFormat, VisitCall};
use romshelf::importer::plan_import;

#[test]
fn test_parse_simple_dat() {
    let xml = r#"<?xml version="1.0"?>
<datafile>
  <header>
    <name>Test DAT</name>
    <version>2025-01-30</version>
  </header>
  <game name="Test Game">
    <rom name="test.rom" size="1024" crc="abcd1234" md5="1234567890abcdef" sha1="abc123"/>
  </game>
</datafile>"#;

    let dat = parse_dat(xml, "test.dat").ok().unwrap();
    assert_eq!(dat.name, "Test DAT");
    assert_eq!(dat.version, Some("2025-01-30".to_string()));
    assert_eq!(dat.entry_count(), 1);
    assert_eq!(dat.sets[0].name, "Test Game");
    assert_eq!(dat.sets[0].roms[0].name, "test.rom");
    assert_eq!(dat.sets[0].roms[0].size, 1024);
    assert_eq!(dat.sets[0].roms[0].crc32, Some("abcd1234".to_string()));
}

#[test]
fn test_parse_multiple_entries() {
    let xml = r#"<?xml version="1.0"?>
<datafile>
  <header>
    <name>Multi Test</name>
  </header>
  <game name="Game 1">
    <rom name="game1.rom" size="100" crc="11111111"/>
  </game>
  <game name="Game 2">
    <rom name="game2.rom" size="200" crc="22222222"/>
  </game>
</datafile>"#;

    let dat = parse_dat(xml, "multi.dat").ok().unwrap();
    assert_eq!(dat.entry_count(), 2);
    assert_eq!(dat.sets[0].name, "Game 1");
    assert_eq!(dat.sets[1].name, "Game 2");
}

#[test]
fn empty_manifest_imports_no_entries_and_no_sets() {
    let xml = "<?xml version=\"1.0\"?><datafile><header><name>Empty</name></header></datafile>";
    let calls = parse_dat_calls(xml, "/dats/empty.dat").ok().unwrap();
    let plan = plan_import(&calls);
    assert_eq!(plan.name, "Empty");
    assert_eq!(plan.entry_count, 0);
    assert_eq!(plan.sets.len(), 0);
    let dat = parse_dat(xml, "/dats/empty.dat").ok().unwrap();
    assert_eq!(dat.sets.len(), 0);
    assert_eq!(dat.entry_count(), 0);
}

#[test]
fn longer_description_replaces_name() {
    let xml = "<datafile><header><name>a2600</name><description>Atari 2600 cartridges</description></header>\
               <machine name=\"x\"><rom name=\"x.bin\" size=\"4\" crc=\"00000001\"/></machine></datafile>";
    let dat = parse_dat(xml, "/dats/a2600.xml").ok().unwrap();
    assert_eq!(dat.name, "Atari 2600 cartridges");
    let calls = parse_dat_calls(xml, "/dats/a2600.xml").ok().unwrap();
    match &calls[0] {
        VisitCall::DatStart(h) => {
            assert_eq!(h.name, "Atari 2600 cartridges");
            assert_eq!(h.description, Some("Atari 2600 cartridges".to_string()));
        }
        _ => panic!("the header call comes first"),
    }
}

#[test]
fn shorter_description_keeps_name() {
    let xml = "<datafile><header><name>Long manifest name</name><description>Short</description></header></datafile>";
    let dat = parse_dat(xml, "x.dat").ok().unwrap();
    assert_eq!(dat.name, "Long manifest name");
}

#[test]
fn missing_header_uses_file_stem() {
    let xml = "<datafile><game name=\"G\"><rom name=\"a.rom\" size=\"12\" crc=\"57F4675D\"/></game></datafile>";
    let dat = parse_dat(xml, "/dats/My Pack.v2.dat").ok().unwrap();
    assert_eq!(dat.name, "My Pack.v2");
    assert_eq!(dat.sets[0].roms[0].crc32, Some("57f4675d".to_string()));
}

#[test]
fn call_order_and_end_call() {
    let xml = "<datafile><game name=\"G\"><rom name=\"a.rom\" size=\"12\" crc=\"57f4675d\" \
               sha1=\"1eebdf4fdc9fc7bf283031b93f9aef3338de9052\"/></game></datafile>";
    let calls = parse_dat_calls(xml, "/dats/s1.dat").ok().unwrap();
    assert_eq!(calls.len(), 5);
    assert!(matches!(calls[0], VisitCall::DatStart(_)));
    assert!(matches!(calls[1], VisitCall::SetStart(_)));
    assert!(matches!(calls[2], VisitCall::Rom(_)));
    assert!(matches!(calls[3], VisitCall::SetEnd(_)));
    assert!(matches!(calls[4], VisitCall::DatEnd));
    let plan = plan_import(&calls);
    assert_eq!(plan.entry_count, 1);
    assert_eq!(plan.sets, vec!["G".to_string()]);
    assert_eq!(plan.entries[0].set, Some(0));
}

#[test]
fn open_rom_elements_and_software_sets() {
    let xml = "\u{feff}<softwarelist><software name=\"S\"><rom name=\"b.bin\" size=\"+7\" md5=\"ABCDEF\"></rom></software></softwarelist>";
    let dat = parse_dat(xml, "/dats/softwarelist.xml").ok().unwrap();
    assert_eq!(dat.sets[0].name, "S");
    assert_eq!(dat.sets[0].roms[0].size, 7);
    assert_eq!(dat.sets[0].roms[0].md5, Some("abcdef".to_string()));
}

#[test]
fn rom_without_set_goes_to_default_set() {
    let xml = "<datafile><rom name=\"loose.bin\" size=\"1\" crc=\"00000000\"/></datafile>";
    let dat = parse_dat(xml, "d.dat").ok().unwrap();
    assert_eq!(dat.sets[0].name, "Default");
    assert_eq!(dat.entry_count(), 1);
}

#[test]
fn entries_without_digest_are_not_planned() {
    let xml = "<datafile><game name=\"G\"><rom name=\"a\" size=\"1\"/><rom name=\"b\" size=\"1\" sha1=\"aa\"/></game></datafile>";
    let calls = parse_dat_calls(xml, "d.dat").ok().unwrap();
    let plan = plan_import(&calls);
    assert_eq!(plan.entry_count, 1);
    assert_eq!(plan.entries[0].entry.name, "b");
}

#[test]
fn malformed_xml_is_a_parse_error() {
    let xml = "<datafile><game name=\"G\"></datafile>";
    assert!(parse_dat(xml, "bad.dat").is_err());
}

#[test]
fn sizes_read_as_decimal_or_zero() {
    assert_eq!(parse_size("1024"), 1024);
    assert_eq!(parse_size("+12"), 12);
    assert_eq!(parse_size("18446744073709551615"), u64::MAX);
    assert_eq!(parse_size("18446744073709551616"), 0);
    assert_eq!(parse_size("12a"), 0);
    assert_eq!(parse_size(""), 0);
    assert_eq!(parse_size("+"), 0);
    assert_eq!(parse_size("-1"), 0);
}

#[test]
fn format_from_file_name_keywords() {
    assert_eq!(DatFormat::from_path("/x/TOSEC - Amiga.dat"), DatFormat::Tosec);
    assert_eq!(DatFormat::from_path("/x/Nintendo (No-Intro).dat"), DatFormat::NoIntro);
    assert_eq!(DatFormat::from_path("/x/redump-psx.dat"), DatFormat::Redump);
    assert_eq!(DatFormat::from_path("/x/MAME 0.250.xml"), DatFormat::Mame);
    assert_eq!(DatFormat::from_path("/x/softwarelist.xml"), DatFormat::Mame);
    assert_eq!(DatFormat::from_path("/x/ClrMamePro.dat"), DatFormat::ClrMamePro);
    assert_eq!(DatFormat::from_lowered_name("clrmame"), DatFormat::ClrMamePro);
    assert_eq!(DatFormat::from_lowered_name("mame clrmame"), DatFormat::ClrMamePro);
    assert_eq!(DatFormat::from_path("/tosec/other.dat"), DatFormat::Unknown);
    assert_eq!(DatFormat::Mame.label(), "MAME");
    assert_eq!(DatFormat::NoIntro.label(), "No-Intro");
}

#[test]
fn streaming_into_collecting_visitor() {
    let xml = "<datafile><header><name>N</name></header><game name=\"G\"><rom name=\"a\" size=\"1\" crc=\"00000000\"/></game></datafile>";
    let mut v = romshelf::dat::CollectingVisitor::new();
    assert!(romshelf::dat::parse_dat_streaming(xml, "n.dat", &mut v).is_ok());
    let dat = v.into_dat();
    assert_eq!(dat.name, "N");
    assert_eq!(dat.sets.len(), 1);
    assert_eq!(dat.sets[0].roms[0].name, "a");
}

#[test]
fn empty_set_elements_open_and_close_a_set() {
    let xml = "<datafile><header><name>N</name></header><game name=\"E\"/><machine name=\"M\"><rom name=\"m.bin\" size=\"2\" crc=\"00000002\"/></machine></datafile>";
    let calls = parse_dat_calls(xml, "n.dat").ok().unwrap();
    assert_eq!(calls.len(), 7);
    assert!(matches!(&calls[1], VisitCall::SetStart(s) if s.name == "E"));
    assert!(matches!(&calls[2], VisitCall::SetEnd(s) if s.name == "E"));
    let dat = parse_dat(xml, "n.dat").ok().unwrap();
    assert_eq!(dat.sets.len(), 2);
    assert_eq!(dat.sets[0].name, "E");
    assert!(dat.sets[0].roms.is_empty());
    assert_eq!(dat.sets[1].roms[0].name, "m.bin");
}

#[test]
fn comments_and_cdata_are_passed_over() {
    let xml = "<?xml version=\"1.0\"?><!-- list --><datafile><header><name>C</name><!-- x --></header>\
               <game name=\"G\"><![CDATA[ignored]]><rom name=\"a\" size=\"1\" sha1=\"AB\"/></game></datafile>";
    let dat = parse_dat(xml, "c.dat").ok().unwrap();
    assert_eq!(dat.name, "C");
    assert_eq!(dat.sets[0].roms[0].sha1, Some("ab".to_string()));
}
