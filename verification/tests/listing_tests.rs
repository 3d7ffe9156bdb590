use nemweb_reports::listing::{
    dispatch_zip_url, last_marked_piece, listing_file_url, sensitivities_zip_url, byte_range,
};

#[test]
fn last_piece_with_the_mark() {
    let page = "head<br>A PUBLIC_PRICES 1<br>other<br>B PUBLIC_PRICES 2<br>tail";
    assert_eq!(last_marked_piece(page, "<br>", "PUBLIC_PRICES"), Some("B PUBLIC_PRICES 2".to_string()));
    assert_eq!(last_marked_piece(page, "<br>", "NOTHING"), None);
}

#[test]
fn pieces_like_std_split() {
    let pages = ["", "<br>", "x<br><br>bx", "ax<br", "<br><br>x<br>", "<br<br>>x", "xx<br>x<br>y", "<br>x<br>x"];
    for page in pages {
        let expected = page.split("<br>").filter(|l| l.contains('x')).last().map(|s| s.to_string());
        assert_eq!(last_marked_piece(page, "<br>", "x"), expected, "{:?}", page);
        let last = page.split("<br>").last().map(|s| s.to_string());
        assert_eq!(last_marked_piece(page, "<br>", ""), last, "{:?}", page);
    }
}

#[test]
fn byte_ranges_like_std() {
    let s = "aé€b";
    for from in 0..=s.len() + 1 {
        for to in 0..=s.len() + 1 {
            assert_eq!(byte_range(s, from, to), s.get(from..to).map(|t| t.to_string()), "{from}..{to}");
        }
    }
}

#[test]
fn url_from_small_listing() {
    let page = "x<br>   MARK abcdef<br>y";
    assert_eq!(listing_file_url(page, "MARK", 8, 14, "http://h/"), Some("http://h/abcdef".to_string()));
    assert_eq!(listing_file_url(page, "MARK", 8, 40, "http://h/"), None);
    assert_eq!(listing_file_url(page, "NONE", 0, 1, "http://h/"), None);
}

fn piece_with_name_at(start: usize, name: &str) -> String {
    let mut line = " ".repeat(start - 1);
    line.insert(0, '>');
    format!("{line}{name}</A>")
}

#[test]
fn sensitivities_archive_name() {
    let name = "PUBLIC_PREDISPATCH_SENSITIVITIES_202403010930_000000041427816300.zip";
    assert_eq!(name.len(), 68);
    let page = format!("<pre><br>{}<br>{}<br></pre>", piece_with_name_at(174, "OLD"), piece_with_name_at(174, name));
    assert_eq!(
        sensitivities_zip_url(&page),
        Some(format!("https://www.nemweb.com.au/REPORTS/CURRENT/Predispatch_Sensitivities/{name}"))
    );
}

#[test]
fn dispatch_archive_name() {
    let name = "PUBLIC_PRICES_202403010000_20240302040503.zip";
    assert_eq!(name.len(), 45);
    let page = format!("<br>{}<br>", piece_with_name_at(139, name));
    assert_eq!(
        dispatch_zip_url(&page),
        Some(format!("https://www.nemweb.com.au/REPORTS/CURRENT/Public_Prices/{name}"))
    );
    assert_eq!(dispatch_zip_url("<br>PUBLIC_PRICES too short<br>"), None);
}
