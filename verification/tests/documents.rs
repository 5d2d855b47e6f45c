use comicinfo_generator::archive::{
    find_metadata, is_comic_info_entry, kept_entries, METADATA_ENTRY,
};
use comicinfo_generator::reader::{read_comic_info, unescape_xml};
use comicinfo_generator::schema::{
    canonical_index, canonical_tags, comicinfo_fields, default_tag_order, options, tag_rank, Choice,
};
use comicinfo_generator::tags::{collect, TagMap};
use comicinfo_generator::xml::{build_comic_info_xml, escape_xml};

fn pair(tag: &str, value: &str) -> (String, String) {
    (tag.to_string(), value.to_string())
}

#[test]
fn texts_are_escaped_and_read_again() {
    let text = "<a href=\"x\">Tom & 'Jerry'</a> &amp; \u{65e5}\n";
    let escaped = escape_xml(text);
    assert_eq!(
        escaped,
        "&lt;a href=&quot;x&quot;&gt;Tom &amp; &apos;Jerry&apos;&lt;/a&gt; &amp;amp; \u{65e5}\n"
    );
    assert_eq!(unescape_xml(&escaped), text);
    // What is no known reference stands for itself.
    assert_eq!(unescape_xml("& &x; &am; &lt"), "& &x; &am; &lt");
}

#[test]
fn a_document_is_written_line_by_line() {
    let mut data = TagMap::new();
    data.insert("Writer".to_string(), "A & B".to_string());
    data.insert("Title".to_string(), "T".to_string());
    data.insert("Zebra".to_string(), "".to_string());
    data.insert("Writer".to_string(), "C".to_string());
    assert_eq!(
        build_comic_info_xml(&data, &default_tag_order()),
        "<?xml version=\"1.0\" encoding=\"utf-8\"?>\n<ComicInfo>\n  <Title>T</Title>\n  \
         <Writer>C</Writer>\n  <Zebra></Zebra>\n</ComicInfo>\n"
    );
}

#[test]
fn a_blank_volume_is_not_written() {
    let data = collect(&vec![pair("Volume", " \t"), pair("Number", "")]);
    let xml = build_comic_info_xml(&data, &vec![]);
    assert!(!xml.contains("Volume"));
    assert!(xml.contains("<Number></Number>"));
}

#[test]
fn a_document_is_read_as_it_was_written() {
    let pairs = vec![
        pair("Series", "Tom & Jerry <2>"),
        pair("Volume", ""),
        pair("Summary", "Line one\nLine \"two\""),
        pair("Foreign", ""),
    ];
    let order: Vec<String> = pairs.iter().map(|p| p.0.clone()).collect();
    let xml = build_comic_info_xml(&collect(&pairs), &order);
    assert_eq!(
        read_comic_info(&xml),
        Some(vec![pairs[0].clone(), pairs[2].clone(), pairs[3].clone()])
    );
}

#[test]
fn documents_of_others_are_read() {
    let xml = "<?xml version='1.0'?>\n<!-- made <elsewhere> -->\n<ComicInfo xmlns:xsi=\"x\">\n\
               <Title>A</Title><!-- > <Not>read</Not> --><Web/>\n<Notes lang=\"en\">n</Notes>\
               <Pages><Page Image=\"0\" /></Pages><Number >1</Number>\n</ComicInfo>";
    assert_eq!(
        read_comic_info(xml),
        Some(vec![pair("Title", "A"), pair("Web", ""), pair("Notes", "n"), pair("Number", "1")])
    );
    assert_eq!(read_comic_info("<ComicInfo/>"), Some(vec![]));
    assert_eq!(read_comic_info("<ComicInfo>"), Some(vec![]));
    assert_eq!(read_comic_info("<Other></Other>"), None);
    assert_eq!(read_comic_info("<ComicInfo"), None);
    assert_eq!(read_comic_info(""), None);
    assert_eq!(read_comic_info("<ComicInfo><A>1</B></ComicInfo>"), Some(vec![]));
}

#[test]
fn tags_rank_by_a_custom_order_and_then_by_the_schema() {
    let order = vec!["Genre".to_string(), "Zebra".to_string()];
    assert_eq!(tag_rank("Genre", &order), 0);
    assert_eq!(tag_rank("Zebra", &order), 1);
    assert!(tag_rank("Title", &order) > 1);
    assert!(tag_rank("Title", &order) < tag_rank("Series", &order));
    assert_eq!(tag_rank("Unknown", &order), usize::MAX);
    assert_eq!(tag_rank("Title", &default_tag_order()), 0);
}

#[test]
fn the_schema_has_its_fields() {
    assert_eq!(canonical_tags().len(), default_tag_order().len());
    assert_eq!(comicinfo_fields().len() + 4, canonical_tags().len());
    assert_eq!(options(Choice::YesNo), vec!["Unknown", "No", "Yes"]);
    assert_eq!(options(Choice::Manga).len(), 4);
    assert_eq!(options(Choice::AgeRating)[14], "X18+");
}

#[test]
fn the_last_value_of_a_tag_counts() {
    let map = collect(&vec![pair("a", "1"), pair("b", "2"), pair("a", "3")]);
    assert_eq!(map.get("a"), Some(&"3".to_string()));
    assert_eq!(map.get("b"), Some(&"2".to_string()));
    assert_eq!(map.get("c"), None);
    assert_eq!(map.entries, vec![pair("a", "3"), pair("b", "2")]);
    assert!(map.contains_key("b") && !map.contains_key("c"));
    assert!(!map.is_empty() && TagMap::new().is_empty());
    assert_eq!(map.duplicate().entries, map.entries);
}

#[test]
fn metadata_is_written_behind_the_other_entries() {
    let names: Vec<String> =
        ["a.png", "ComicInfo.xml", "x/ComicInfo.xml", "b.png"].map(String::from).to_vec();
    assert!(is_comic_info_entry("ComicInfo.xml") && !is_comic_info_entry("comicinfo.xml"));
    assert_eq!(kept_entries(&names), vec![0, 2, 3]);
    assert_eq!(find_metadata(&names), Some(1));
    let mut written: Vec<String> =
        kept_entries(&names).into_iter().map(|i| names[i].clone()).collect();
    assert_eq!(find_metadata(&written), None);
    written.push(METADATA_ENTRY.to_string());
    assert_eq!(find_metadata(&written), Some(3));
    assert_eq!(kept_entries(&written), vec![0, 1, 2]);
}

/// The entries of an archive after metadata was written into it.
fn write(entries: &[(String, String)], metadata: &str) -> Vec<(String, String)> {
    let names: Vec<String> = entries.iter().map(|e| e.0.clone()).collect();
    let mut out: Vec<(String, String)> =
        kept_entries(&names).into_iter().map(|i| entries[i].clone()).collect();
    out.push(pair(METADATA_ENTRY, metadata));
    out
}

#[test]
fn the_last_write_wins() {
    let entries = [pair("1.png", "a"), pair("ComicInfo.xml", "old"), pair("2.png", "b")];
    let once = write(&entries, "one");
    let twice = write(&once, "two");
    assert_eq!(twice, write(&entries, "two"));
    assert_eq!(twice, vec![pair("1.png", "a"), pair("2.png", "b"), pair("ComicInfo.xml", "two")]);
    assert_eq!(write(&twice, "two"), twice);
    let names: Vec<String> = twice.iter().map(|e| e.0.clone()).collect();
    assert_eq!(twice[find_metadata(&names).unwrap()].1, "two");
}

#[test]
fn places_in_the_schema_and_the_default_order_are_inverse() {
    let order = default_tag_order();
    assert_eq!(order.len(), 43);
    for (i, tag) in order.iter().enumerate() {
        assert_eq!(canonical_index(tag), i);
        assert_eq!(tag_rank(tag, &order), i);
    }
    assert_eq!(canonical_index("title"), usize::MAX);
}

#[test]
fn the_order_in_which_tags_are_set_does_not_matter() {
    let mut one = TagMap::new();
    let mut other = TagMap::new();
    for (tag, value) in [("Year", "2020"), ("Own", "x"), ("Title", "T"), ("Volume", " ")] {
        one.insert(tag.to_string(), value.to_string());
    }
    for (tag, value) in [("Volume", " "), ("Title", "S"), ("Own", "x"), ("Year", "2020"), ("Title", "T")] {
        other.insert(tag.to_string(), value.to_string());
    }
    let order = vec!["Own".to_string()];
    let xml = build_comic_info_xml(&one, &order);
    assert_eq!(xml, build_comic_info_xml(&other, &order));
    assert_eq!(
        xml,
        "<?xml version=\"1.0\" encoding=\"utf-8\"?>\n<ComicInfo>\n  <Own>x</Own>\n  <Title>T</Title>\n  <Year>2020</Year>\n</ComicInfo>\n"
    );
    assert_eq!(
        build_comic_info_xml(&TagMap::new(), &order),
        "<?xml version=\"1.0\" encoding=\"utf-8\"?>\n<ComicInfo>\n</ComicInfo>\n"
    );
}
