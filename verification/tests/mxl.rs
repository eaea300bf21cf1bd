use std::io::Write;

use fugue::mxl::{choose_root_entry, convert_musicxml_bytes, read_musicxml};
use zip::write::SimpleFileOptions;
use zip::ZipWriter;

const SCORE: &str = r#"<?xml version="1.0" encoding="UTF-8"?>
<score-partwise version="4.0">
  <part-list><score-part id="P1"><part-name>Test</part-name></score-part></part-list>
  <part id="P1"><measure number="1">
    <attributes><divisions>1</divisions><time><beats>2</beats><beat-type>4</beat-type></time></attributes>
    <note><pitch><step>C</step><octave>4</octave></pitch><duration>1</duration><voice>1</voice></note>
    <note><pitch><step>D</step><octave>4</octave></pitch><duration>1</duration><voice>1</voice></note>
  </measure></part>
</score-partwise>"#;

fn archive(entries: &[(&str, &str)]) -> Vec<u8> {
    let mut writer = ZipWriter::new(std::io::Cursor::new(Vec::new()));
    for (name, text) in entries {
        writer.start_file(*name, SimpleFileOptions::default()).unwrap();
        writer.write_all(text.as_bytes()).unwrap();
    }
    writer.finish().unwrap().into_inner()
}

fn container(path: &str) -> String {
    format!(
        r#"<?xml version="1.0"?><container><rootfiles><rootfile full-path="{}" media-type="application/vnd.recordare.musicxml+xml"/></rootfiles></container>"#,
        path
    )
}

#[test]
fn plain_text_bytes_are_read_as_utf8() {
    assert_eq!(read_musicxml(SCORE.as_bytes()), Ok(SCORE.to_string()));
    assert_eq!(
        read_musicxml(&[0x3c, 0xff, 0xfe]),
        Err("input is not valid UTF-8 MusicXML".to_string())
    );
}

#[test]
fn mxl_archive_reads_the_entry_its_container_names() {
    let bytes = archive(&[
        ("META-INF/container.xml", &container("scores/piece.xml")),
        ("a.xml", "<not-the-score/>"),
        ("scores/piece.xml", SCORE),
    ]);
    assert_eq!(read_musicxml(&bytes), Ok(SCORE.to_string()));
    let (score, _) = convert_musicxml_bytes(&bytes).unwrap();
    assert_eq!(score.cells.len(), 1);
    assert_eq!(score.cells[0].len(), 2);
}

#[test]
fn mxl_without_container_falls_back_to_least_score_entry() {
    let bytes = archive(&[
        ("META-INF/other.xml", "<meta/>"),
        ("z.musicxml", "<later/>"),
        ("b.xml", SCORE),
        ("notes.txt", "text"),
    ]);
    assert_eq!(read_musicxml(&bytes), Ok(SCORE.to_string()));
}

#[test]
fn mxl_errors_name_the_problem() {
    let empty = archive(&[("readme.txt", "nothing")]);
    assert_eq!(read_musicxml(&empty), Err("the .mxl archive contains no MusicXML entry".to_string()));

    let missing = archive(&[("META-INF/container.xml", &container("gone.xml"))]);
    let error = read_musicxml(&missing).unwrap_err();
    assert!(error.starts_with("cannot read 'gone.xml' in the .mxl archive: "), "{error}");

    let broken = [0x50, 0x4b, 0x03, 0x04, 0, 0];
    let error = read_musicxml(&broken).unwrap_err();
    assert!(error.starts_with("input is not a readable .mxl archive: "), "{error}");
    assert_eq!(convert_musicxml_bytes(&broken).err(), Some(error));
}

#[test]
fn root_entry_prefers_the_container_then_the_least_name() {
    let names = vec![
        Ok("b.musicxml".to_string()),
        Ok("META-INF/a.xml".to_string()),
        Err("bad name".to_string()),
        Ok("a.xml".to_string()),
        Ok("a.txt".to_string()),
    ];
    assert_eq!(choose_root_entry(&None, &names), Ok("a.xml".to_string()));
    assert_eq!(choose_root_entry(&Some("x/y.xml".to_string()), &names), Ok("x/y.xml".to_string()));
    assert_eq!(
        choose_root_entry(&None, &vec![Ok("a.txt".to_string())]),
        Err("the .mxl archive contains no MusicXML entry".to_string())
    );
}
