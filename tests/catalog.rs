use game_catalog::assets::{asset_path, file_name, plan_store_image, prepare_store_image, ImageType};
use game_catalog::codec::{decode_games, encode_games};
use game_catalog::error::CatalogError;
use game_catalog::game::Game;
use game_catalog::layout::{bootstrap_steps, catalog_path, directory_steps, Presence, SetupStep};
use game_catalog::text::{join_path, to_decimal};

fn game(id: u64, name: &str, icon: &str) -> Game {
    Game {
        id,
        name: name.to_string(),
        launch_target: format!("/usr/bin/{}", name),
        icon_path: icon.to_string(),
        background_path: String::new(),
    }
}

fn same(a: &Game, b: &Game) -> bool {
    a.id == b.id
        && a.name == b.name
        && a.launch_target == b.launch_target
        && a.icon_path == b.icon_path
        && a.background_path == b.background_path
}

#[test]
fn round_trip_keeps_content_and_order() {
    let games = vec![
        game(9, "Zelda", "/data/icons/9-1.png"),
        game(3, "Ärger — 日本", ""),
        game(9, "dup id", "x"),
    ];
    let bytes = encode_games(&games);
    let back = decode_games(&bytes).unwrap();
    assert_eq!(back.len(), 3);
    for (a, b) in games.iter().zip(back.iter()) {
        assert!(same(a, b));
    }
}

#[test]
fn empty_catalog_round_trips() {
    let bytes = encode_games(&Vec::new());
    assert_eq!(bytes, vec![0x47, 0x43, 0x41, 0x54, 0, 0, 0, 0, 0, 0, 0, 0]);
    assert_eq!(decode_games(&bytes).unwrap().len(), 0);
}

#[test]
fn exact_encoding_of_one_game() {
    let g = Game {
        id: 258,
        name: "é".to_string(),
        launch_target: String::new(),
        icon_path: String::new(),
        background_path: String::new(),
    };
    let bytes = encode_games(&vec![g]);
    let mut expected = vec![0x47, 0x43, 0x41, 0x54, 1, 0, 0, 0, 0, 0, 0, 0];
    expected.extend_from_slice(&[2, 1, 0, 0, 0, 0, 0, 0]);
    expected.extend_from_slice(&[2, 0, 0, 0, 0, 0, 0, 0, 0xC3, 0xA9]);
    for _ in 0..3 {
        expected.extend_from_slice(&[0; 8]);
    }
    assert_eq!(bytes, expected);
}

#[test]
fn arbitrary_bytes_are_corrupt() {
    assert_eq!(decode_games(b"[{\"id\":1}]").unwrap_err(), CatalogError::CorruptCatalog);
    assert_eq!(decode_games(&[]).unwrap_err(), CatalogError::CorruptCatalog);
    assert_eq!(decode_games(&[0xFF, 0xD8, 0xFF, 0xE0]).unwrap_err(), CatalogError::CorruptCatalog);
}

#[test]
fn truncated_or_padded_catalog_is_corrupt() {
    let bytes = encode_games(&vec![game(1, "a", "b")]);
    let cut = &bytes[..bytes.len() - 1];
    assert_eq!(decode_games(cut).unwrap_err(), CatalogError::CorruptCatalog);
    let mut longer = bytes.clone();
    longer.push(0);
    assert_eq!(decode_games(&longer).unwrap_err(), CatalogError::CorruptCatalog);
}

#[test]
fn invalid_utf8_text_is_corrupt() {
    let mut bytes = encode_games(&vec![game(1, "a", "")]);
    // the single byte of the name follows magic, count, id and its length
    let at = 4 + 8 + 8 + 8;
    assert_eq!(bytes[at], b'a');
    bytes[at] = 0xFF;
    assert_eq!(decode_games(&bytes).unwrap_err(), CatalogError::CorruptCatalog);
}

#[test]
fn image_tags() {
    assert_eq!(ImageType::from_tag(1), Ok(ImageType::Icon));
    assert_eq!(ImageType::from_tag(2), Ok(ImageType::Background));
    assert_eq!(ImageType::from_tag(0), Err(CatalogError::InvalidArgument));
    assert_eq!(ImageType::from_tag(3), Err(CatalogError::InvalidArgument));
}

#[test]
fn unknown_tag_plans_nothing() {
    let r = plan_store_image("/tmp/app", 7, 9, "/tmp/app/icons/7-1.png", true, 5);
    assert_eq!(r.err(), Some(CatalogError::InvalidArgument));
    let r = prepare_store_image("/tmp/app", 7, 0, "", false);
    assert_eq!(r.err(), Some(CatalogError::InvalidArgument));
}

#[test]
fn decimal_text() {
    assert_eq!(to_decimal(0), "0");
    assert_eq!(to_decimal(7), "7");
    assert_eq!(to_decimal(1234567890), "1234567890");
    assert_eq!(to_decimal(u64::MAX), u64::MAX.to_string());
}

#[test]
fn joining_paths() {
    assert_eq!(join_path("/tmp/app", "icons"), "/tmp/app/icons");
    assert_eq!(join_path("/tmp/app/", "icons"), "/tmp/app/icons");
    assert_eq!(join_path("", "icons"), "icons");
}

#[test]
fn asset_names_and_paths() {
    assert_eq!(file_name(7, 42), "7-42.png");
    assert_eq!(file_name(0, 9999), "0-9999.png");
    assert_eq!(asset_path("/tmp/app", ImageType::Icon, 7, 42), "/tmp/app/icons/7-42.png");
    assert_eq!(
        asset_path("/tmp/app", ImageType::Background, 12, 0),
        "/tmp/app/backgrounds/12-0.png"
    );
}

#[test]
fn scenario_store_icon_then_save_catalog() {
    let plan = prepare_store_image("/tmp/app", 7, 1, "", false).unwrap();
    assert!(plan.remove_old.is_none());
    let rest = plan.destination.strip_prefix("/tmp/app/icons/7-").unwrap();
    let r: u32 = rest.strip_suffix(".png").unwrap().parse().unwrap();
    assert!(r < 10000);
    let games = vec![game(7, "Seven", &plan.destination)];
    let back = decode_games(&encode_games(&games)).unwrap();
    assert_eq!(back.len(), 1);
    assert!(same(&games[0], &back[0]));
}

#[test]
fn old_path_removed_only_when_present() {
    let plan = prepare_store_image("/tmp/app", 3, 2, "/tmp/app/backgrounds/3-5.png", true).unwrap();
    assert_eq!(plan.remove_old.as_deref(), Some("/tmp/app/backgrounds/3-5.png"));
    assert!(plan.destination.starts_with("/tmp/app/backgrounds/3-"));
    let plan = plan_store_image("/tmp/app", 3, 2, "/gone.png", false, 17).unwrap();
    assert!(plan.remove_old.is_none());
    assert_eq!(plan.destination, "/tmp/app/backgrounds/3-17.png");
}

#[test]
fn bootstrap_from_nothing_then_again() {
    let none = Presence { root: false, icons: false, backgrounds: false, catalog: false };
    let steps = bootstrap_steps("/tmp/app", none);
    assert_eq!(steps.len(), 4);
    match &steps[0] {
        SetupStep::CreateDirectory(p) => assert_eq!(p, "/tmp/app"),
        _ => panic!("root directory comes first"),
    }
    match &steps[1] {
        SetupStep::CreateDirectory(p) => assert_eq!(p, "/tmp/app/icons"),
        _ => panic!("icons directory comes second"),
    }
    match &steps[2] {
        SetupStep::CreateDirectory(p) => assert_eq!(p, "/tmp/app/backgrounds"),
        _ => panic!("backgrounds directory comes third"),
    }
    match &steps[3] {
        SetupStep::WriteFile(p, b) => {
            assert_eq!(p, "/tmp/app/catalog.db");
            assert_eq!(decode_games(b).unwrap().len(), 0);
        }
        _ => panic!("catalog file comes last"),
    }
    let all = Presence { root: true, icons: true, backgrounds: true, catalog: true };
    assert_eq!(bootstrap_steps("/tmp/app", all).len(), 0);
    assert_eq!(catalog_path("/tmp/app"), "/tmp/app/catalog.db");
}

#[test]
fn bootstrap_fills_only_gaps() {
    let some = Presence { root: true, icons: false, backgrounds: true, catalog: true };
    let steps = bootstrap_steps("/data", some);
    assert_eq!(steps.len(), 1);
    match &steps[0] {
        SetupStep::CreateDirectory(p) => assert_eq!(p, "/data/icons"),
        _ => panic!("only the icons directory is missing"),
    }
}

#[test]
fn directory_steps_leave_catalog_alone() {
    let none = Presence { root: false, icons: false, backgrounds: false, catalog: false };
    let steps = directory_steps("/tmp/app", none);
    assert_eq!(steps.len(), 3);
    for s in &steps {
        assert!(matches!(s, SetupStep::CreateDirectory(_)));
    }
    let dirs = Presence { root: true, icons: true, backgrounds: true, catalog: false };
    assert_eq!(directory_steps("/tmp/app", dirs).len(), 0);
}

#[test]
fn valid_tags_always_plan() {
    for tag in [1u8, 2u8] {
        for old_exists in [false, true] {
            assert!(prepare_store_image("/tmp/app", 1, tag, "/old.png", old_exists).is_ok());
            assert!(plan_store_image("/tmp/app", 1, tag, "/old.png", old_exists, 9999).is_ok());
        }
    }
}
