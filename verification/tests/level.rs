use elma::lev::{crypt_top10, Clip, Direction, Level, Object, ObjectType, Picture, Polygon, Top10Entry, Version};
use elma::{ElmaError, Position};

/// Ciphertext of an all-zero top-10 block: the obfuscator's test vector.
const EMPTY_TOP10: [u8; 688] = [
        0x15, 0x05, 0x6A, 0xB7, 0x89, 0xED, 0x59, 0xC4, 0x48, 0xFF, 0x8F, 0x73, 0x76,
        0xBC, 0x70, 0xC0, 0xDF, 0x57, 0xB4, 0x2F, 0x0D, 0x9E, 0x07, 0xBC, 0x63, 0x08,
        0x6F, 0x8A, 0x09, 0x28, 0xAD, 0x38, 0xE0, 0x73, 0xF9, 0xA0, 0x80, 0x00, 0x00,
        0x8A, 0x37, 0x6F, 0x69, 0x60, 0x17, 0x09, 0x77, 0x41, 0xAC, 0x8C, 0x26, 0x34,
        0xAC, 0x02, 0xA7, 0x98, 0xC9, 0xA5, 0xFE, 0x80, 0xDF, 0xC0, 0x97, 0xB4, 0x50,
        0xD7, 0x1D, 0xCA, 0x44, 0x41, 0xFB, 0x47, 0xF7, 0xD8, 0x60, 0x38, 0x84, 0xCB,
        0x4C, 0x82, 0x31, 0x24, 0x9A, 0x91, 0x76, 0xC9, 0x0E, 0x6B, 0xCC, 0x75, 0xFC,
        0xCC, 0xF8, 0xA5, 0x74, 0x98, 0x8E, 0x02, 0xBB, 0x68, 0x44, 0xCB, 0x4C, 0xBD,
        0x99, 0xC4, 0x34, 0xF4, 0x8B, 0x7A, 0x4C, 0x68, 0x58, 0x53, 0x9A, 0x70, 0xCD,
        0x4F, 0x2B, 0xCC, 0xD1, 0x1A, 0xE0, 0x80, 0x2E, 0x8F, 0x73, 0x34, 0xE7, 0x0E,
        0xD4, 0x46, 0x1D, 0xBD, 0x02, 0x9A, 0xBF, 0x33, 0x27, 0x84, 0x06, 0x58, 0x11,
        0xA4, 0x10, 0xE4, 0x1D, 0x75, 0x2A, 0xB0, 0x78, 0x2F, 0xE6, 0x06, 0x86, 0xEF,
        0xA4, 0xD5, 0xF9, 0xFC, 0x91, 0x2E, 0x54, 0x74, 0x5D, 0xF8, 0x91, 0xB1, 0xF6,
        0xA2, 0x55, 0xF9, 0x23, 0xFB, 0x47, 0x8E, 0x0F, 0x45, 0xF4, 0xE7, 0x5D, 0x54,
        0x39, 0x8C, 0xD1, 0x2E, 0x8F, 0x38, 0xBF, 0x8F, 0xBB, 0x68, 0xA0, 0x38, 0xD3,
        0xC8, 0x89, 0x49, 0x91, 0x3B, 0xBD, 0x02, 0x03, 0x88, 0xE5, 0x2C, 0x7F, 0x9C,
        0xB5, 0x93, 0x5F, 0x57, 0xA0, 0xA1, 0xE4, 0x4B, 0x11, 0x5C, 0xFD, 0x6B, 0x84,
        0x34, 0xC6, 0xFC, 0x91, 0xB1, 0x17, 0x09, 0x91, 0x3B, 0x96, 0xA5, 0x74, 0x98,
        0x3F, 0xBD, 0x5E, 0x7D, 0xA6, 0x89, 0x84, 0x27, 0xE0, 0x52, 0x64, 0xA7, 0xA5,
        0xA2, 0x90, 0x40, 0x4F, 0x73, 0x34, 0x98, 0x04, 0x90, 0x1F, 0xCD, 0xB8, 0xA5,
        0x81, 0x43, 0x88, 0xC4, 0xD8, 0xC9, 0xCC, 0x19, 0x2D, 0x1E, 0x97, 0x65, 0x46,
        0xFC, 0x35, 0x58, 0x32, 0xD7, 0x2A, 0x2D, 0xFD, 0x4A, 0x16, 0x98, 0x81, 0xDA,
        0x84, 0x9D, 0x19, 0x5B, 0x8C, 0xB0, 0x85, 0x15, 0x55, 0xBE, 0x38, 0xA5, 0xFE,
        0x94, 0x95, 0xCB, 0xE3, 0xDA, 0x56, 0x22, 0x69, 0x04, 0xB1, 0x8D, 0x07, 0x46,
        0x93, 0x6C, 0xA6, 0x34, 0x5D, 0x54, 0xD0, 0xF8, 0x84, 0x90, 0x1F, 0xE1, 0xC3,
        0xB6, 0x67, 0xED, 0x38, 0x98, 0x60, 0xF6, 0x60, 0xC8, 0x5B, 0x02, 0x5F, 0x1C,
        0xC2, 0xA7, 0x5D, 0xA3, 0x7E, 0xCF, 0x24, 0xA7, 0x1B, 0x7F, 0x7B, 0xDE, 0x42,
        0xA7, 0xD3, 0xF6, 0xAF, 0xAB, 0xCC, 0xA3, 0x64, 0x03, 0x2C, 0x23, 0x15, 0xBE,
        0xAE, 0x40, 0x4F, 0x45, 0xF4, 0x50, 0x05, 0x7E, 0xE9, 0xF7, 0xCB, 0xFD, 0x8C,
        0xFF, 0x8F, 0x52, 0xFB, 0x47, 0x53, 0x1D, 0x33, 0x76, 0xBC, 0xAB, 0xBF, 0x40,
        0xB8, 0xE0, 0x17, 0xEF, 0x00, 0x0D, 0x42, 0x3E, 0x66, 0x13, 0xF6, 0x53, 0xF6,
        0x8E, 0x1C, 0xB5, 0xB4, 0x50, 0xCA, 0xBA, 0x1E, 0xB8, 0x1B, 0x02, 0x10, 0x4D,
        0xE6, 0x89, 0x84, 0xEC, 0xE1, 0xF1, 0x03, 0xDD, 0xEB, 0x9E, 0xB8, 0xBF, 0xA9,
        0x32, 0xFE, 0xCF, 0x80, 0x21, 0xC3, 0x2C, 0x7F, 0x26, 0x4E, 0xC0, 0x48, 0x68,
        0xAD, 0xE3, 0x15, 0xEC, 0xBA, 0x11, 0x48, 0x4E, 0xD4, 0x74, 0x71, 0x24, 0x9A,
        0x28, 0xAD, 0xB5, 0xB4, 0x98, 0x04, 0x1A, 0x56, 0xD3, 0xE2, 0xBE, 0x94, 0xD0,
        0x12, 0xFB, 0xB0, 0x57, 0x65, 0xBC, 0xAB, 0x56, 0x77, 0x06, 0xE2, 0x3B, 0x5B,
        0xF5, 0x3E, 0x45, 0x01, 0x15, 0xE5, 0xAF, 0x69, 0x04, 0x6F, 0x21, 0xE4, 0x31,
        0xD5, 0x34, 0xAC, 0x30, 0x0F, 0x24, 0xD5, 0x06, 0xA7, 0x3C, 0x91, 0x5C, 0xB5,
        0x2A, 0x68, 0xCE, 0x6B, 0x84, 0x41, 0x36, 0x60, 0xC8, 0x13, 0xB4, 0xB9, 0xFC,
        0xAB, 0x63, 0x9F, 0xB3, 0x3B, 0x19, 0xC4, 0xD8, 0x11, 0xA4, 0x1D, 0xA3, 0x08,
        0xB7, 0x89, 0xCC, 0xEB, 0x9E, 0x00, 0x00, 0xF3, 0xCB, 0x1E, 0xC5, 0xE7, 0x77,
        0x7C, 0x28, 0xA0, 0x80, 0x48, 0x89, 0x49, 0x1B, 0xD4, 0x88, 0xC4, 0x55, 0x06,
        0xCE, 0xA6, 0xAA, 0xFF, 0x8F, 0xBB, 0x2D, 0x38, 0x91, 0xB1, 0xBB, 0xA3, 0x8B,
        0x59, 0xB7, 0xC4, 0xEC, 0x30, 0x4A, 0xE8, 0xA0, 0xDC, 0x7A, 0xE3, 0xB9, 0xA0,
        0x38, 0xED, 0xC2, 0xD5, 0xBE, 0x38, 0x28, 0x16, 0x98, 0x6D, 0xCF, 0x73, 0x55,
        0x13, 0x4B, 0x4C, 0x19, 0xF2, 0xA9, 0x04, 0x9D, 0xEB, 0x42, 0x8D, 0x21, 0xD7,
        0x4B, 0x2B, 0x07, 0x9B, 0xDB, 0x23, 0x50, 0x6E, 0x82, 0xD5, 0xD8, 0x04, 0x34,
        0x15, 0xBE, 0x38, 0xED, 0xB5, 0x10, 0xB6, 0x53, 0x79, 0xF5, 0x58, 0x32, 0x88,
        0x20, 0xE9, 0xD6, 0x98, 0xEA, 0xDE, 0x97, 0x2A, 0x96, 0x6A, 0xA3, 0x5D, 0x0C,
        0xF8, 0x2F, 0xC5, 0xAC, 0x6B, 0x56, 0xC6, 0x79, 0x51, 0xD2, 0x29, 0x25, 0x67,
        0xED, 0x59, 0xFF, 0x9C, 0x38, 0xD3, 0xA7, 0x84, 0xCB, 0x04, 0x48, 0x6F, 0xC5,
        0x22, 0x97, 0xC1, 0x36, 0xAF, 0x14, 0xC3, 0x95, 0xD8, 0x60, 0xE9, 0x4C,
];

#[test]
fn test_decrypt_encrypt() {
    let mut initial: Vec<u8> = vec![];
    for _ in 0..688 {
        initial.push(rand::random::<u8>());
    }
    let decrypted = crypt_top10(&initial);
    let encrypted = crypt_top10(&decrypted);
    assert_eq!(initial, encrypted);
}

#[test]
fn empty_block_ciphertext_matches_the_game() {
    let plain = vec![0u8; 688];
    let enc = crypt_top10(&plain);
    assert_eq!(&enc[..], &EMPTY_TOP10[..]);
    let dec = crypt_top10(&EMPTY_TOP10);
    assert_eq!(dec, plain);
}

#[test]
fn level_default_values() {
    let level = Level::new();
    assert_eq!(level.version, Version::Elma);
    assert_eq!(level.link, 0);
    assert_eq!(level.integrity, [0u64; 4]);
    assert_eq!(level.name, "");
    assert_eq!(level.lgr, "default");
    assert_eq!(level.ground, "ground");
    assert_eq!(level.sky, "sky");
    assert_eq!(level.polygons, vec![]);
    assert_eq!(level.objects, vec![]);
    assert_eq!(level.pictures, vec![]);
    assert_eq!(level.top10_single, vec![]);
    assert_eq!(level.top10_multi, vec![]);
}

fn pos(x: f64, y: f64) -> Position<u64> {
    Position { x: x.to_bits(), y: y.to_bits() }
}

fn test_level() -> Level {
    let mut level = Level::new();
    level.link = 1524269776;
    level.integrity = [
        (-1148375.210607791f64).to_bits(),
        1164056.210607791f64.to_bits(),
        1162467.210607791f64.to_bits(),
        1162283.210607791f64.to_bits(),
    ];
    level.name = String::from("Rust test");
    level.polygons = vec![
        Polygon {
            grass: false,
            vertices: vec![
                pos(-23.993693053024586, -3.135779367971911),
                pos(-15.989070625361132, -3.135779367971911),
                pos(-15.989070625361132, 1.995755366905195),
                pos(-24f64, 2f64),
            ],
        },
        Polygon {
            grass: true,
            vertices: vec![
                pos(-23.83645939819548, 2.310222676563402),
                pos(-17.60428907951465, 2.2816347393217473),
                pos(-17.53281923641051, 1.8956975865594021),
                pos(-23.96510511578293, 1.924285523801057),
            ],
        },
    ];
    level.objects = vec![
        Object {
            position: pos(-23.221818747499896, -1.3204453531268072),
            object_type: ObjectType::Killer,
        },
        Object {
            position: pos(-20.37252715482359, -0.3124543521844827),
            object_type: ObjectType::Apple { gravity: Direction::Normal, animation: 9 },
        },
        Object {
            position: pos(-20.3914786548306, 0.5277288147929609),
            object_type: ObjectType::Apple { gravity: Direction::Up, animation: 1 },
        },
        Object {
            position: pos(-19.526026821177144, 0.36348248139887396),
            object_type: ObjectType::Apple { gravity: Direction::Right, animation: 5 },
        },
        Object {
            position: pos(-21.269564821822065, 0.38243398140588436),
            object_type: ObjectType::Apple { gravity: Direction::Left, animation: 1 },
        },
        Object {
            position: pos(-19.55761265452216, -0.4387976855645497),
            object_type: ObjectType::Apple { gravity: Direction::Up, animation: 1 },
        },
        Object {
            position: pos(-20.075620321380434, -1.2473950191969765),
            object_type: ObjectType::Exit,
        },
        Object {
            position: pos(-22.94993115577695, 1.5068896484884773),
            object_type: ObjectType::Player,
        },
    ];
    level.pictures = vec![
        Picture {
            name: String::from("barrel"),
            texture: String::new(),
            mask: String::new(),
            position: pos(-19.37674118849727, 0.895119783101471),
            distance: 380,
            clip: Clip::Sky,
        },
        Picture {
            name: String::new(),
            texture: String::from("stone1"),
            mask: String::from("maskbig"),
            position: pos(-24.465394017511894, -3.964829547979911),
            distance: 750,
            clip: Clip::Sky,
        },
    ];
    level.top10_single = vec![Top10Entry {
        time: 2039,
        player1_name: String::from("Rust"),
        player2_name: String::new(),
    }];
    level
}

#[test]
fn load_valid_level_1() {
    // The fields of the reference level, written and read back.
    let saved = test_level();
    let bytes = saved.to_bytes().unwrap();
    let level = Level::from_bytes(&bytes).unwrap();
    assert_eq!(level.version, Version::Elma);
    assert_eq!(level.link, 1524269776);
    assert_eq!(
        [
            f64::from_bits(level.integrity[0]),
            f64::from_bits(level.integrity[1]),
            f64::from_bits(level.integrity[2]),
            f64::from_bits(level.integrity[3]),
        ],
        [-1148375.210607791, 1164056.210607791, 1162467.210607791, 1162283.210607791]
    );
    assert_eq!(level.name, "Rust test");
    assert_eq!(level.lgr, "default");
    assert_eq!(level.ground, "ground");
    assert_eq!(level.sky, "sky");
    assert_eq!(level.polygons.len(), 2);
    assert_eq!(level.polygons, saved.polygons);
    assert!(!level.polygons[0].grass);
    assert!(level.polygons[1].grass);
    assert_eq!(level.polygons[0].vertices.len(), 4);
    assert_eq!(
        f64::from_bits(level.polygons[0].vertices[0].x),
        -23.993693053024586
    );
    assert_eq!(level.objects.len(), 8);
    assert_eq!(level.objects, saved.objects);
    assert_eq!(level.pictures.len(), 2);
    assert_eq!(level.pictures, saved.pictures);
    assert_eq!(level.top10_single, saved.top10_single);
    assert_eq!(level.top10_multi, vec![]);
}

#[test]
fn level_round_trip_is_structural() {
    let level = test_level();
    let bytes = level.to_bytes().unwrap();
    let back = Level::from_bytes(&bytes).unwrap();
    assert_eq!(back, level);
    // Saving is deterministic, so a second round trip is byte-identical.
    let bytes2 = back.to_bytes().unwrap();
    assert_eq!(bytes2, bytes);
}

#[test]
fn markers_are_enforced() {
    let level = Level::new();
    let bytes = level.to_bytes().unwrap();
    // Empty level: counts at 130, 138 and 146, end-of-data marker at 154.
    for k in 0..4 {
        let mut bad = bytes.clone();
        bad[154 + k] ^= 0x40;
        assert_eq!(Level::from_bytes(&bad), Err(ElmaError::EODMismatch));
    }
    let eof = bytes.len() - 4;
    for k in 0..4 {
        let mut bad = bytes.clone();
        bad[eof + k] ^= 0x40;
        assert_eq!(Level::from_bytes(&bad), Err(ElmaError::EOFMismatch));
    }
}

#[test]
fn versions_are_enforced() {
    let level = Level::new();
    let mut bytes = level.to_bytes().unwrap();
    bytes[3] = 0x30;
    bytes[4] = 0x36;
    assert_eq!(Level::from_bytes(&bytes), Err(ElmaError::AcrossUnsupported));
    bytes[0] = 0x51;
    assert_eq!(Level::from_bytes(&bytes), Err(ElmaError::InvalidLevelFile));
    let across = Level { version: Version::Across, ..Level::new() };
    assert_eq!(across.to_bytes(), Err(ElmaError::AcrossUnsupported));
}

#[test]
fn object_fields_are_validated() {
    let mut level = Level::new();
    level.objects = vec![Object {
        position: pos(0.0, 0.0),
        object_type: ObjectType::Killer,
    }];
    let bytes = level.to_bytes().unwrap();
    // One object: its record starts at 146, the type at 162, gravity at 166.
    let mut bad = bytes.clone();
    bad[162] = 9;
    assert_eq!(Level::from_bytes(&bad), Err(ElmaError::InvalidObject(9)));
    let mut bad = bytes.clone();
    bad[166] = 7;
    assert_eq!(Level::from_bytes(&bad), Err(ElmaError::InvalidGravity(7)));
}

#[test]
fn clipping_is_validated() {
    let mut level = Level::new();
    level.pictures = vec![Picture {
        name: String::from("barrel"),
        texture: String::new(),
        mask: String::new(),
        position: pos(0.0, 0.0),
        distance: 500,
        clip: Clip::Ground,
    }];
    let bytes = level.to_bytes().unwrap();
    // One picture: its record starts at 154, the clipping word at 204.
    let mut bad = bytes.clone();
    bad[204] = 3;
    assert_eq!(Level::from_bytes(&bad), Err(ElmaError::InvalidClipping(3)));
}
