use gg::avatar::{generated, hex, Identity, GRID};
use gg::git::read::{CommitSummary, Signature};

fn identity(name: &str, email: &str) -> Identity {
    Identity {
        name: name.to_owned(),
        email: email.to_owned(),
    }
}

#[test]
fn a_github_noreply_address_yields_an_avatar_url_without_an_api_call() {
    let author = identity("Luc", "1234567+luc@users.noreply.github.com");

    assert_eq!(author.github_id().as_deref(), Some("1234567"));
    assert!(author
        .remote_url()
        .starts_with("https://avatars.githubusercontent.com/u/1234567"));
}

#[test]
fn any_other_address_falls_back_to_gravatar() {
    let author = identity("Luc", "  Luc@Example.COM ");

    assert_eq!(author.github_id(), None);
    assert!(author.remote_url().starts_with("https://gravatar.com/avatar/"));
    assert!(
        author.remote_url().contains("d=404"),
        "a missing gravatar has to read as missing, not as their placeholder"
    );
}

#[test]
fn the_gravatar_digest_ignores_case_and_surrounding_space() {
    assert_eq!(
        identity("Luc", "luc@example.com").remote_url(),
        identity("Someone Else", " LUC@Example.com  ").remote_url(),
        "gravatar hashes the trimmed lowercased address, and nothing else"
    );
}

#[test]
fn a_generated_avatar_is_stable_and_mirrored() {
    let first = generated(&identity("Luc", "luc@example.com"));
    let again = generated(&identity("Luc", "luc@example.com"));

    assert_eq!(first.cells, again.cells);
    assert_eq!(first.colour, again.colour);

    for row in 0..GRID {
        for column in 0..GRID {
            assert_eq!(
                first.cells[row * GRID + column],
                first.cells[row * GRID + (GRID - 1 - column)]
            );
        }
    }
}

#[test]
fn different_authors_generate_different_avatars() {
    let one = generated(&identity("Luc", "luc@example.com"));
    let two = generated(&identity("Ada", "ada@example.com"));

    assert!(one.cells != two.cells || one.colour != two.colour);
}

#[test]
fn hex_writes_two_lowercase_digits_a_byte() {
    assert_eq!(hex(&[0x00, 0x0f, 0xa0, 0xff]), "000fa0ff");
    assert_eq!(hex(&[]), "");
}

#[test]
fn a_gravatar_url_carries_the_sha256_of_the_address() {
    assert_eq!(
        identity("Luc", " Luc@Example.com ").remote_url(),
        "https://gravatar.com/avatar/a74b5a6d77dce0db5a0ccbff34b6f9c94bf825910054c1a7f4bab8dbb0bf713e?s=64&d=404"
    );
}

#[test]
fn a_github_avatar_url_asks_for_the_fetched_size() {
    assert_eq!(
        identity("Luc", "1234567+luc@users.noreply.github.com").remote_url(),
        "https://avatars.githubusercontent.com/u/1234567?s=64"
    );
}

#[test]
fn a_fingerprint_changes_with_the_name_and_ignores_the_case_of_the_address() {
    let one = identity("Luc", "luc@example.com").fingerprint();
    let same = identity(" Luc ", "LUC@example.com").fingerprint();
    let other = identity("Ada", "luc@example.com").fingerprint();
    assert_eq!(one, same);
    assert_ne!(one, other);
}

#[test]
fn a_noreply_address_without_a_numeric_id_has_no_github_id() {
    assert_eq!(identity("Luc", "luc@users.noreply.github.com").github_id(), None);
    assert_eq!(
        identity("Luc", "42@users.noreply.github.com").github_id().as_deref(),
        Some("42")
    );
}

#[test]
fn the_fingerprint_is_the_sha256_of_name_zero_and_address() {
    assert_eq!(
        hex(&identity(" Luc", "LUC@example.com ").fingerprint()),
        "c150c83cef123dab5f15765b02c963aa32261f05e912702209425c6ad591e393"
    );
}

#[test]
fn the_cache_file_is_named_by_the_fingerprint() {
    assert_eq!(
        identity("Luc", "luc@example.com").cache_file_name(),
        "c150c83cef123dab5f15765b02c963aa32261f05e912702209425c6ad591e393.square.png"
    );
}

/// The colour as HSL arithmetic in `f32` gives it, hue from the first byte.
fn colour_by_floats(byte: u8) -> [u8; 3] {
    let hue = f32::from(byte) / 255.0 * 360.0;
    let (saturation, lightness): (f32, f32) = (0.55, 0.55);
    let chroma = (1.0 - (2.0 * lightness - 1.0).abs()) * saturation;
    let secondary = chroma * (1.0 - ((hue / 60.0) % 2.0 - 1.0).abs());
    let offset = lightness - chroma / 2.0;
    let (red, green, blue) = match hue as u32 / 60 {
        0 => (chroma, secondary, 0.0),
        1 => (secondary, chroma, 0.0),
        2 => (0.0, chroma, secondary),
        3 => (0.0, secondary, chroma),
        4 => (secondary, 0.0, chroma),
        _ => (chroma, 0.0, secondary),
    };
    [
        ((red + offset) * 255.0) as u8,
        ((green + offset) * 255.0) as u8,
        ((blue + offset) * 255.0) as u8,
    ]
}

#[test]
fn the_mark_colour_matches_hsl_for_every_first_byte() {
    for byte in 0..=255u8 {
        let mut fingerprint = [0u8; 32];
        fingerprint[0] = byte;
        assert_eq!(gg::avatar::colour_from(&fingerprint), colour_by_floats(byte), "byte {byte}");
    }
}

#[test]
fn an_avatar_is_cached_by_its_fingerprint() {
    let author = identity("Luc", "luc@example.com");
    let name = "c150c83cef123dab5f15765b02c963aa32261f05e912702209425c6ad591e393.square.png";
    assert_eq!(
        gg::avatar::cache_path(&author, Some("/cache"), Some("/home/luc")),
        format!("/cache/gitgui/avatars/{name}")
    );
    assert_eq!(
        gg::avatar::cache_path(&author, None, Some("/home/luc")),
        format!("/home/luc/.cache/gitgui/avatars/{name}")
    );
    assert_eq!(
        gg::avatar::cache_path(&author, None, None),
        format!(".cache/gitgui/avatars/{name}")
    );
    assert_eq!(gg::avatar::cached("/c/a.png".to_owned(), true).as_deref(), Some("/c/a.png"));
    assert_eq!(gg::avatar::cached("/c/a.png".to_owned(), false), None);
}

#[test]
fn the_graph_draws_each_author_by_their_mark() {
    let who = Signature {
        name: "Luc".to_owned(),
        email: "luc@example.com".to_owned(),
        seconds: 0,
        offset: 0,
    };
    let commit = CommitSummary {
        id: gg::git::ObjectId { bytes: vec![1; 20] },
        parent: None,
        title: String::new(),
        body: String::new(),
        author: who.clone(),
        committer: who,
        when: String::new(),
    };
    let author = gg::ui::graph::author_of(&commit);
    let mark = generated(&identity("Luc", "luc@example.com"));
    assert_eq!(author.fingerprint, identity("Luc", "luc@example.com").fingerprint());
    assert_eq!(author.generated.cells, mark.cells);
    assert_eq!(author.generated.colour, mark.colour);
}

#[test]
fn a_picture_is_cut_to_its_centred_square() {
    assert_eq!(gg::avatar::centred_square(300, 200), (50, 0, 200));
    assert_eq!(gg::avatar::centred_square(200, 301), (0, 50, 200));
    assert_eq!(gg::avatar::centred_square(64, 64), (0, 0, 64));
    assert_eq!(gg::avatar::centred_square(0, 5), (0, 2, 0));
}

#[test]
fn a_fetched_picture_becomes_a_square_portrait() {
    let mut picture = image::RgbaImage::new(30, 20);
    for (x, _, pixel) in picture.enumerate_pixels_mut() {
        *pixel = image::Rgba([if x < 5 { 255 } else { 0 }, 0, 200, 255]);
    }
    let mut png = std::io::Cursor::new(Vec::new());
    picture
        .write_to(&mut png, image::ImageFormat::Png)
        .expect("a png can be written");

    let pixels = gg::avatar::portrait(png.get_ref()).expect("a png decodes");
    assert_eq!(pixels.len(), 4 * 64 * 64);
    // The left five columns are cut away with the rest of the margin, so no red is left.
    assert!(pixels.chunks(4).all(|p| p[0] < 16 && p[2] > 150));

    assert!(gg::avatar::portrait(b"not a picture").is_err());
}

#[test]
fn a_no_reply_address_spelled_in_capitals_gives_the_same_avatar() {
    let a = identity("Luc", "1234567+luc@users.noreply.github.com");
    let b = identity("Someone Else", " 1234567+LUC@Users.NoReply.GitHub.com ");
    assert_eq!(a.remote_url(), b.remote_url());
    assert_eq!(a.remote_url(), "https://avatars.githubusercontent.com/u/1234567?s=64");
}
