use artist_wallpaper::song::{ParseError, Song};

fn song(a: &str, t: &str, s: &str) -> Song {
    Song { artist: a.to_string(), title: t.to_string(), status: s.to_string() }
}

#[test]
fn round_trip_keeps_every_field() {
    let original = song("Radiohead", "Karma Police", "Playing");
    let doc = original.to_document();
    let back = Song::parse(&doc).unwrap();
    assert_eq!(back.artist, "Radiohead");
    assert_eq!(back.title, "Karma Police");
    assert_eq!(back.status, "Playing");
}

#[test]
fn document_layout() {
    let doc = song("Radiohead", "Karma Police", "Playing").to_document();
    assert_eq!(
        doc,
        "<Song><artist>Radiohead</artist><title>Karma Police</title><status>Playing</status></Song>"
    );
}

#[test]
fn special_characters_are_escaped_and_restored() {
    let original = song("Guns N' Roses", "<Sweet> & \"Child\"", "Paused");
    let doc = original.to_document();
    assert_eq!(
        doc,
        "<Song><artist>Guns N&apos; Roses</artist><title>&lt;Sweet&gt; &amp; &quot;Child&quot;</title><status>Paused</status></Song>"
    );
    let back = Song::parse(&doc).unwrap();
    assert_eq!(back.artist, "Guns N' Roses");
    assert_eq!(back.title, "<Sweet> & \"Child\"");
    assert_eq!(back.status, "Paused");
}

#[test]
fn character_references_are_decoded() {
    let line = "<Song><artist>Guns N&#39; Roses</artist><title>&#x41;&#X;</title><status>Playing</status></Song>";
    assert_eq!(Song::parse(line).err(), Some(ParseError::BadEntity));
    let line = "<Song><artist>Guns N&#39; Roses</artist><title>&#x41;&#233;</title><status>Playing</status></Song>";
    let s = Song::parse(line).unwrap();
    assert_eq!(s.artist, "Guns N' Roses");
    assert_eq!(s.title, "Aé");
}

#[test]
fn empty_fields_are_allowed() {
    let s = Song::parse("<Song><artist></artist><title></title><status></status></Song>").unwrap();
    assert_eq!(s.artist, "");
    assert_eq!(s.title, "");
    assert_eq!(s.status, "");
}

#[test]
fn unknown_or_bad_entities_are_refused() {
    let bad = [
        "<Song><artist>a &b</artist><title>t</title><status>s</status></Song>",
        "<Song><artist>a &nbsp; b</artist><title>t</title><status>s</status></Song>",
        "<Song><artist>a</artist><title>&#xD800;</title><status>s</status></Song>",
        "<Song><artist>a</artist><title>t</title><status>&#1114112;</status></Song>",
        "<Song><artist>a</artist><title>t</title><status>&#12a;</status></Song>",
    ];
    for line in bad {
        assert_eq!(Song::parse(line).err(), Some(ParseError::BadEntity), "{}", line);
    }
}

#[test]
fn malformed_lines_are_refused() {
    let bad = [
        "",
        "Radiohead - Karma Police",
        "<Song><artist>a</artist><title>t</title><status>s</status></Song>\n",
        "<Song><artist>a</artist><title>t</title><status>s</status>",
        "<Song><title>t</title><artist>a</artist><status>s</status></Song>",
        "<Song><artist>a<b</artist><title>t</title><status>s</status></Song>",
        " <Song><artist>a</artist><title>t</title><status>s</status></Song>",
    ];
    for line in bad {
        assert_eq!(Song::parse(line).err(), Some(ParseError::Malformed), "{:?}", line);
    }
}
