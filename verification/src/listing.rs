//! Finding a report's file name in a directory listing page: the page is cut
//! at `<br>` marks, the last piece that names the report is taken, and the
//! file name sits at fixed byte positions in that piece.
use vstd::prelude::*;
use vstd::string::{StringExecFns, StringSliceAdditionalSpecFns};
use vstd::utf8::{decode_utf8, encode_utf8, is_char_boundary, valid_utf8};

use crate::text::{chars_of, contains_text, has_substring, string_of};

verus! {

broadcast use {vstd::string::group_string_axioms, vstd::utf8::group_utf8_lib};

/// The directory of the predispatch sensitivities archives.
pub const SENSITIVITIES_DIRECTORY: &'static str =
    "https://www.nemweb.com.au/REPORTS/CURRENT/Predispatch_Sensitivities/";

/// The directory of the public prices archives.
pub const PRICES_DIRECTORY: &'static str = "https://www.nemweb.com.au/REPORTS/CURRENT/Public_Prices/";

/// The pieces of `s` between the occurrences of `sep` found from `i` on, the
/// current piece starting at `start` (std's `str::split` with a string
/// pattern, which takes occurrences from the left without overlap).
pub open spec fn split_text_from(s: Seq<char>, sep: Seq<char>, start: int, i: int) -> Seq<Seq<char>>
    decreases s.len() - i,
{
    if sep.len() == 0 || i < 0 || i + sep.len() > s.len() {
        seq![s.subrange(start, s.len() as int)]
    } else if s.subrange(i, i + sep.len()) == sep {
        seq![s.subrange(start, i)] + split_text_from(s, sep, i + sep.len(), i + sep.len())
    } else {
        split_text_from(s, sep, start, i + 1)
    }
}

/// The pieces of `s` between occurrences of the (non-empty) separator.
pub open spec fn split_text(s: Seq<char>, sep: Seq<char>) -> Seq<Seq<char>> {
    split_text_from(s, sep, 0, 0)
}

/// The last piece that contains `marker`.
pub open spec fn last_marked(pieces: Seq<Seq<char>>, marker: Seq<char>) -> Option<Seq<char>>
    decreases pieces.len(),
{
    if pieces.len() == 0 {
        None
    } else if has_substring(pieces.last(), marker) {
        Some(pieces.last())
    } else {
        last_marked(pieces.drop_last(), marker)
    }
}

/// The piece taken from a listing is the last one that contains the mark: it
/// is a piece, it contains the mark, and no later piece does; where none is
/// taken, no piece contains the mark.
pub proof fn law_last_marked(pieces: Seq<Seq<char>>, marker: Seq<char>)
    ensures
        last_marked(pieces, marker) matches Some(p) ==> exists|i: int|
            0 <= i < pieces.len() && pieces[i] == p && has_substring(p, marker) && forall|j: int|
                i < j < pieces.len() ==> !has_substring(#[trigger] pieces[j], marker),
        last_marked(pieces, marker) is None ==> forall|j: int|
            0 <= j < pieces.len() ==> !has_substring(#[trigger] pieces[j], marker),
    decreases pieces.len(),
{
    if pieces.len() > 0 {
        let init = pieces.drop_last();
        law_last_marked(init, marker);
        let n = pieces.len() - 1;
        assert(pieces[n] == pieces.last());
        if !has_substring(pieces.last(), marker) {
            if last_marked(init, marker) is Some {
                let i = choose|i: int|
                    0 <= i < init.len() && init[i] == last_marked(init, marker).unwrap() && has_substring(
                        init[i],
                        marker,
                    ) && forall|j: int| i < j < init.len() ==> !has_substring(#[trigger] init[j], marker);
                assert(pieces[i] == init[i]);
                assert forall|j: int| i < j < pieces.len() implies !has_substring(#[trigger] pieces[j], marker) by {
                    if j < n {
                        assert(pieces[j] == init[j]);
                    }
                }
            } else {
                assert forall|j: int| 0 <= j < pieces.len() implies !has_substring(#[trigger] pieces[j], marker) by {
                    if j < n {
                        assert(pieces[j] == init[j]);
                    }
                }
            }
        }
    }
}

/// Whether `sep` occurs in `s` at position `i`.
fn occurs_at(s: &Vec<char>, sep: &Vec<char>, i: usize) -> (r: bool)
    requires
        i + sep.len() <= s.len(),
    ensures
        r == (s@.subrange(i as int, i + sep.len()) == sep@),
{
    let m = sep.len();
    let mut k: usize = 0;
    while k < m
        invariant
            i + m <= s.len(),
            m == sep.len(),
            k <= m,
            forall|q: int| 0 <= q < k ==> s@[i + q] == sep@[q],
        decreases m - k,
    {
        if s[i + k] != sep[k] {
            assert(s@.subrange(i as int, i + m)[k as int] != sep@[k as int]);
            return false;
        }
        k = k + 1;
    }
    assert(s@.subrange(i as int, i + m) =~= sep@);
    true
}

proof fn lemma_last_marked_push(pieces: Seq<Seq<char>>, p: Seq<char>, marker: Seq<char>)
    ensures
        last_marked(pieces.push(p), marker) == if has_substring(p, marker) {
            Some(p)
        } else {
            last_marked(pieces, marker)
        },
{
    assert(pieces.push(p).drop_last() =~= pieces);
}

/// The last piece of `text`, cut at the separator, that contains `marker`.
pub fn last_marked_piece(text: &str, sep: &str, marker: &str) -> (r: Option<String>)
    requires
        sep@.len() > 0,
    ensures
        r is Some <==> last_marked(split_text(text@, sep@), marker@) is Some,
        r matches Some(p) ==> last_marked(split_text(text@, sep@), marker@) == Some(p@),
{
    let s = chars_of(text);
    let sp = chars_of(sep);
    let n = s.len();
    let m = sp.len();
    let mut best: Option<String> = None;
    let ghost mut done: Seq<Seq<char>> = Seq::empty();
    let mut start: usize = 0;
    let mut i: usize = 0;
    while m <= n && i <= n - m
        invariant
            s@ == text@,
            sp@ == sep@,
            n == s.len(),
            m == sp.len(),
            m > 0,
            start <= i,
            i <= n,
            split_text(text@, sep@) == done + split_text_from(text@, sep@, start as int, i as int),
            best is Some <==> last_marked(done, marker@) is Some,
            best matches Some(p) ==> last_marked(done, marker@) == Some(p@),
        decreases n - i,
    {
        if occurs_at(&s, &sp, i) {
            let piece = string_of(&s, start, i);
            proof {
                lemma_last_marked_push(done, piece@, marker@);
                let rest = split_text_from(text@, sep@, (i + m) as int, (i + m) as int);
                assert(done + split_text_from(text@, sep@, start as int, i as int) =~= done.push(piece@)
                    + rest);
                done = done.push(piece@);
            }
            if contains_text(piece.as_str(), marker) {
                best = Some(piece);
            }
            start = i + m;
            i = i + m;
        } else {
            i = i + 1;
        }
    }
    let piece = string_of(&s, start, n);
    proof {
        lemma_last_marked_push(done, piece@, marker@);
        assert(done + split_text_from(text@, sep@, start as int, i as int) =~= done.push(piece@));
    }
    if contains_text(piece.as_str(), marker) {
        best = Some(piece);
    }
    best
}

/// A prefix of valid UTF-8 keeps the character boundaries before its end.
proof fn lemma_prefix_boundary(bytes: Seq<u8>, from: int, to: int)
    requires
        valid_utf8(bytes),
        0 <= from <= to <= bytes.len(),
        is_char_boundary(bytes, from),
        is_char_boundary(bytes, to),
    ensures
        is_char_boundary(bytes.subrange(0, to), from),
{
    let prefix = bytes.subrange(0, to);
    assert(valid_utf8(prefix));
    if from == to {
        vstd::utf8::is_char_boundary_start_end_of_seq(prefix);
        assert(prefix.len() == to);
    } else if from > 0 {
        assert(prefix[from] == bytes[from]);
        vstd::utf8::is_char_boundary_iff_not_is_continuation_byte(bytes, from);
        vstd::utf8::is_char_boundary_iff_not_is_continuation_byte(prefix, from);
    } else {
        vstd::utf8::is_char_boundary_start_end_of_seq(prefix);
    }
}

/// The text at byte positions `from..to` of `s` (std's `&s[from..to]`); `None`
/// where std's indexing panics: the range is reversed, ends past the text, or
/// does not fall on character boundaries.
pub fn byte_range(s: &str, from: usize, to: usize) -> (r: Option<String>)
    ensures
        r is Some <==> (from <= to && is_char_boundary(s.spec_bytes(), from as int)
            && is_char_boundary(s.spec_bytes(), to as int)),
        r matches Some(t) ==> encode_utf8(t@) == s.spec_bytes().subrange(from as int, to as int)
            && t@ == decode_utf8(s.spec_bytes().subrange(from as int, to as int)),
{
    if from <= to && s.is_char_boundary(from) && s.is_char_boundary(to) {
        proof {
            assert(valid_utf8(s.spec_bytes()));
            lemma_prefix_boundary(s.spec_bytes(), from as int, to as int);
        }
        let (head, _) = s.split_at(to);
        let (_, part) = head.split_at(from);
        assert(part.spec_bytes() =~= s.spec_bytes().subrange(from as int, to as int));
        Some(part.to_owned())
    } else {
        None
    }
}

/// The address of the report file that a listing page names: the last piece
/// of the page (cut at `<br>`) that contains `marker`, its bytes `from..to`
/// appended to `base`; `None` where no piece contains the marker or the byte
/// range cannot be cut from it (where std's indexing panics).
pub open spec fn url_in_listing(
    listing: Seq<char>,
    marker: Seq<char>,
    from: int,
    to: int,
    base: Seq<char>,
) -> Option<Seq<char>> {
    match last_marked(split_text(listing, "<br>"@), marker) {
        None => None,
        Some(piece) => {
            let b = encode_utf8(piece);
            if from <= to && is_char_boundary(b, from) && is_char_boundary(b, to) {
                Some(base + decode_utf8(b.subrange(from, to)))
            } else {
                None
            }
        },
    }
}

/// The address that `url_in_listing` describes.
pub fn listing_file_url(listing: &str, marker: &str, from: usize, to: usize, base: &str) -> (r: Option<String>)
    ensures
        r is Some <==> url_in_listing(listing@, marker@, from as int, to as int, base@) is Some,
        r matches Some(url) ==> url_in_listing(listing@, marker@, from as int, to as int, base@) == Some(url@),
{
    proof {
        reveal_strlit("<br>");
    }
    let line = last_marked_piece(listing, "<br>", marker);
    match line {
        None => None,
        Some(line) => {
            let text = line.as_str();
            assert(text.spec_bytes() == encode_utf8(line@));
            match byte_range(text, from, to) {
                None => None,
                Some(name) => {
                    let mut url = base.to_owned();
                    url.append(name.as_str());
                    Some(url)
                },
            }
        },
    }
}

/// The address of the newest predispatch sensitivities archive named in the
/// listing page of its directory.
pub fn sensitivities_zip_url(listing: &str) -> (r: Option<String>)
    ensures
        r is Some <==> url_in_listing(
            listing@,
            "PUBLIC_PREDISPATCH_SENSITIVITIES"@,
            174,
            242,
            SENSITIVITIES_DIRECTORY@,
        ) is Some,
        r matches Some(url) ==> url_in_listing(
            listing@,
            "PUBLIC_PREDISPATCH_SENSITIVITIES"@,
            174,
            242,
            SENSITIVITIES_DIRECTORY@,
        ) == Some(url@),
{
    listing_file_url(listing, "PUBLIC_PREDISPATCH_SENSITIVITIES", 174, 242, SENSITIVITIES_DIRECTORY)
}

/// The address of the newest public prices archive named in the listing page
/// of its directory.
pub fn dispatch_zip_url(listing: &str) -> (r: Option<String>)
    ensures
        r is Some <==> url_in_listing(listing@, "PUBLIC_PRICES"@, 139, 184, PRICES_DIRECTORY@) is Some,
        r matches Some(url) ==> url_in_listing(listing@, "PUBLIC_PRICES"@, 139, 184, PRICES_DIRECTORY@) == Some(url@),
{
    listing_file_url(listing, "PUBLIC_PRICES", 139, 184, PRICES_DIRECTORY)
}

} // verus!
