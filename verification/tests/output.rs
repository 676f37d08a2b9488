use zengyaku::entry::{Entry, CRC32, SHA1};
use zengyaku::report::write_tsv;
use zengyaku::xml::write_xml;

fn sample() -> Vec<Entry> {
    let mut sha = [0u8; 20];
    for (i, b) in sha.iter_mut().enumerate() {
        *b = (i * 13) as u8;
    }
    vec![
        Entry { crc: CRC32(0x2cbe41a6), sha1: Some(SHA1(sha)), name: "Wonder".to_string() },
        Entry { crc: CRC32(0xab), sha1: None, name: "Old One".to_string() },
    ]
}

#[test]
fn tsv_lists_one_line_per_entry() {
    assert_eq!(
        write_tsv(&sample()),
        "Wonder\t2cbe41a6\t000d1a2734414e5b6875828f9ca9b6c3d0ddeaf7\nOld One\t000000ab\n"
    );
    assert_eq!(write_tsv(&[]), "");
}

#[test]
fn xml_datafile() {
    let xml = write_xml(&sample(), "ws", "GoodWSx").unwrap();
    let expected = [
        "<?xml version=\"1.0\" encoding=\"UTF-8\"?>\n",
        "<!DOCTYPE datafile PUBLIC \"-//Logiqx//DTD ROM Management Datafile//EN\" \"http://www.logiqx.com/Dats/datafile.dtd\">\n",
        "<datafile>\n",
        "    <header>\n",
        "        <name>GoodWSx</name>\n",
        "        <description>GoodWSx</description>\n",
        "    </header>\n",
        "    <game name=\"Wonder\">\n",
        "        <description>Wonder</description>\n",
        "        <rom name=\"Wonder.ws\" crc=\"2cbe41a6\" sha1=\"000d1a2734414e5b6875828f9ca9b6c3d0ddeaf7\"/>\n",
        "    </game>\n",
        "    <game name=\"Old One\">\n",
        "        <description>Old One</description>\n",
        "        <rom name=\"Old One.ws\" crc=\"000000ab\"/>\n",
        "    </game>\n",
        "</datafile>",
    ]
    .join("");
    assert_eq!(xml, expected);
}

#[test]
fn xml_without_extension() {
    let xml = write_xml(&sample()[..1], "", "").unwrap();
    assert!(xml.contains("<rom name=\"Wonder\" crc=\"2cbe41a6\""));
    assert!(xml.contains("<name></name>"));
}

#[test]
fn xml_escapes_names() {
    let entries = vec![Entry { crc: CRC32(0), sha1: Some(SHA1([0; 20])), name: "Tom & Jerry <\"1\">'".to_string() }];
    let xml = write_xml(&entries, "", "a&b").unwrap();
    assert!(xml.contains("<name>a&amp;b</name>"));
    assert!(xml.contains("<game name=\"Tom &amp; Jerry &lt;&quot;1&quot;&gt;&apos;\">"));
    assert!(xml.contains("<description>Tom &amp; Jerry &lt;&quot;1&quot;&gt;&apos;</description>"));
    assert!(xml.contains("<rom name=\"Tom &amp; Jerry &lt;&quot;1&quot;&gt;&apos;\" crc=\"00000000\""));
    assert!(!xml.contains("& "));
}

#[test]
fn xml_goodpico_example() {
    let sha = [
        0x28, 0xa0, 0xe1, 0xbc, 0xcc, 0x4c, 0x10, 0xa5, 0x73, 0x79, 0xf8, 0x7c, 0x67, 0xc6, 0xc5, 0xec,
        0xf0, 0x7f, 0xb0, 0xf4,
    ];
    let entries = vec![Entry { crc: CRC32(0xd62e3372), sha1: Some(SHA1(sha)), name: "Foo".to_string() }];
    let xml = write_xml(&entries, "gb", "GoodPico").unwrap();
    let name = xml.find("<name>GoodPico</name>").unwrap();
    let game = xml.find("<game name=\"Foo\">").unwrap();
    let desc = xml.find("<description>Foo</description>").unwrap();
    let rom = xml
        .find("<rom name=\"Foo.gb\" crc=\"d62e3372\" sha1=\"28a0e1bccc4c10a57379f87c67c6c5ecf07fb0f4\"/>")
        .unwrap();
    assert!(name < game && game < desc && desc < rom);
}

#[test]
fn xml_with_no_entries_is_the_header_alone() {
    let xml = write_xml(&[], "", "x").unwrap();
    let expected = [
        "<?xml version=\"1.0\" encoding=\"UTF-8\"?>\n",
        "<!DOCTYPE datafile PUBLIC \"-//Logiqx//DTD ROM Management Datafile//EN\" \"http://www.logiqx.com/Dats/datafile.dtd\">\n",
        "<datafile>\n",
        "    <header>\n",
        "        <name>x</name>\n",
        "        <description>x</description>\n",
        "    </header>\n",
        "</datafile>",
    ]
    .join("");
    assert_eq!(xml, expected);
}
