use url::Url;
use wishlist::crypto::{decrypt, encrypt};
use wishlist::padding::{pad, unpad};
use wishlist::session::{
    delete_query, input_is, link_text, mark_bought_query, notifications_for, own_wishes_query,
    parse_auth_choice, parse_link, parse_menu_choice, password, price_text, relate_query,
    remove_recipient_query, user_wishes_query, wish_is_bought, wish_position, AuthChoice,
    MenuChoice,
};
use wishlist::wish::{
    readable_wishes, DecryptError, EncryptedWishListElement, Paddings, WishListElement,
};

const KEY: &[u8; 16] = b"0123456789abcdef";

#[test]
fn test_encrypt_unencrypt() {
    let key = b"12345678901234567890123456789012";
    let wish = WishListElement::new(
        String::from("Test"),
        123.0f64.to_string(),
        String::from("Test"),
        Some(Url::parse("https://test.com").unwrap().to_string()),
    );
    let encrypted = EncryptedWishListElement::from_unencrypted(wish, key);
    let decrypted = WishListElement::from_encrypted(&encrypted, key).unwrap();
    assert_eq!(decrypted.name, String::from("Test"));
    assert_eq!(decrypted.price.parse::<f64>().unwrap(), 123.0);
    assert_eq!(decrypted.store, String::from("Test"));
    assert_eq!(
        decrypted.link,
        Some(Url::parse("https://test.com").unwrap().to_string())
    );
}

#[test]
fn pad_short_input() {
    let mut bytes = b"abc".to_vec();
    let p = pad(&mut bytes);
    assert_eq!(p, 13);
    let mut expected = b"abc".to_vec();
    expected.extend(vec![13u8; 13]);
    assert_eq!(bytes, expected);
}

#[test]
fn pad_whole_block_adds_a_block() {
    let mut bytes = vec![7u8; 16];
    let p = pad(&mut bytes);
    assert_eq!(p, 16);
    assert_eq!(bytes.len(), 32);
    assert_eq!(&bytes[16..], &[16u8; 16][..]);
}

#[test]
fn pad_empty_input() {
    let mut bytes: Vec<u8> = Vec::new();
    assert_eq!(pad(&mut bytes), 16);
    assert_eq!(bytes, vec![16u8; 16]);
}

#[test]
fn unpad_undoes_pad() {
    let original = b"hello wishlist".to_vec();
    let mut bytes = original.clone();
    let p = pad(&mut bytes);
    assert_eq!(unpad(&bytes, p), Ok(original));
}

#[test]
fn unpad_rejects_zero_padding() {
    assert_eq!(unpad(b"abc", 0), Err("Invalid padding byte"));
}

#[test]
fn unpad_rejects_padding_over_block() {
    assert_eq!(unpad(&[17u8; 32], 17), Err("Invalid padding byte"));
}

#[test]
fn unpad_rejects_padding_longer_than_input() {
    assert_eq!(
        unpad(&[3u8, 3u8], 3),
        Err("Padding size larger than input size")
    );
}

#[test]
fn unpad_rejects_unequal_padding_bytes() {
    assert_eq!(unpad(&[1u8, 2u8, 2u8, 3u8], 3), Err("Invalid padding bytes"));
}

#[test]
fn unpad_only_checks_that_padding_bytes_agree() {
    assert_eq!(unpad(&[9u8, 5u8, 5u8], 2), Ok(vec![9u8]));
}

#[test]
fn encrypt_known_aes_block() {
    // FIPS-197, appendix C.1
    let key: Vec<u8> = (0u8..16).collect();
    let plain: Vec<u8> = vec![
        0x00, 0x11, 0x22, 0x33, 0x44, 0x55, 0x66, 0x77, 0x88, 0x99, 0xaa, 0xbb, 0xcc, 0xdd, 0xee,
        0xff,
    ];
    let (ciphertext, padding) = encrypt(&key, &plain);
    assert_eq!(padding, 16);
    assert_eq!(ciphertext.len(), 32);
    assert_eq!(
        &ciphertext[..16],
        &[
            0x69, 0xc4, 0xe0, 0xd8, 0x6a, 0x7b, 0x04, 0x30, 0xd8, 0xcd, 0xb7, 0x80, 0x70, 0xb4,
            0xc5, 0x5a
        ][..]
    );
    assert_eq!(decrypt(&key, &ciphertext, padding), plain);
}

#[test]
fn encrypt_uses_first_sixteen_key_bytes() {
    let long_key = b"0123456789abcdefEXTRA-KEY-BYTES!";
    let (c1, p1) = encrypt(long_key, b"same message");
    let (c2, p2) = encrypt(KEY, b"same message");
    assert_eq!(c1, c2);
    assert_eq!(p1, p2);
}

#[test]
fn encrypt_decrypt_round_trip() {
    let message = b"a message that spans more than one block".to_vec();
    let (ciphertext, padding) = encrypt(KEY, &message);
    assert_eq!(ciphertext.len(), 48);
    assert_eq!(padding, 8);
    assert_ne!(&ciphertext[..16], &message[..16]);
    assert_eq!(decrypt(KEY, &ciphertext, padding), message);
}

#[test]
fn decrypt_empty_ciphertext() {
    assert_eq!(decrypt(KEY, &[], 5), Vec::<u8>::new());
}

#[test]
fn decrypt_with_zero_padding_keeps_last_block() {
    let (ciphertext, _) = encrypt(KEY, b"0123456789ABCDE");
    let all = decrypt(KEY, &ciphertext, 0);
    assert_eq!(all.len(), 16);
    assert_eq!(&all[..15], b"0123456789ABCDE");
    assert_eq!(all[15], 1);
}

fn sample_wish(link: Option<&str>) -> WishListElement {
    WishListElement::new(
        String::from("Sykkel"),
        String::from("1999.5"),
        String::from("XXL"),
        link.map(|l| l.to_string()),
    )
}

#[test]
fn round_trip_without_link() {
    let encrypted = EncryptedWishListElement::from_unencrypted(sample_wish(None), KEY);
    assert_eq!(encrypted.id, None);
    assert!(encrypted.link.is_none());
    assert!(encrypted.paddings.link.is_none());
    let w = encrypted.decrypt(KEY).unwrap();
    assert_eq!(w.id, None);
    assert_eq!(w.name, "Sykkel");
    assert_eq!(w.price, "1999.5");
    assert_eq!(w.store, "XXL");
    assert_eq!(w.link, None);
}

#[test]
fn round_trip_parses_link() {
    let encrypted =
        EncryptedWishListElement::from_unencrypted(sample_wish(Some("https://Example.com")), KEY);
    let w = encrypted.decrypt(KEY).unwrap();
    assert_eq!(w.link, Some(String::from("https://example.com/")));
}

#[test]
fn decrypt_keeps_record_id() {
    let mut encrypted = EncryptedWishListElement::from_unencrypted(sample_wish(None), KEY);
    encrypted.id = Some(String::from("item:abc"));
    let w = encrypted.decrypt(KEY).unwrap();
    assert_eq!(w.id, Some(String::from("item:abc")));
}

#[test]
fn encrypted_fields_hide_the_text() {
    let encrypted = EncryptedWishListElement::from_unencrypted(sample_wish(None), KEY);
    assert_eq!(encrypted.name.len(), 16);
    assert_ne!(&encrypted.name[..6], b"Sykkel");
    assert_eq!(encrypted.paddings.name, 10);
    assert_eq!(encrypted.paddings.price, 10);
    assert_eq!(encrypted.paddings.store, 13);
}

#[test]
fn decrypt_rejects_invalid_utf8() {
    let mut encrypted = EncryptedWishListElement::from_unencrypted(sample_wish(None), KEY);
    let (bad, p) = encrypt(KEY, &[0xff, 0xfe]);
    encrypted.store = bad;
    encrypted.paddings.store = p;
    assert!(matches!(encrypted.decrypt(KEY), Err(DecryptError::InvalidUtf8)));
}

#[test]
fn decrypt_rejects_invalid_link() {
    let encrypted =
        EncryptedWishListElement::from_unencrypted(sample_wish(Some("not a url")), KEY);
    assert!(matches!(
        encrypted.decrypt(KEY),
        Err(DecryptError::InvalidLink(_))
    ));
}

#[test]
fn readable_wishes_keeps_positions_of_readable_ones() {
    let good = EncryptedWishListElement::from_unencrypted(sample_wish(None), KEY);
    let (bad_name, p) = encrypt(KEY, &[0xc3]);
    let bad = EncryptedWishListElement {
        id: None,
        name: bad_name,
        price: good.price.clone(),
        store: good.store.clone(),
        link: None,
        paddings: Paddings {
            name: p,
            price: good.paddings.price,
            store: good.paddings.store,
            link: None,
        },
    };
    let also_good = EncryptedWishListElement::from_unencrypted(sample_wish(None), KEY);
    let items = vec![bad, good, also_good];
    let res = readable_wishes(&items, KEY);
    assert_eq!(res.len(), 2);
    assert_eq!(res[0].0, 1);
    assert_eq!(res[1].0, 2);
    assert_eq!(res[1].1.name, "Sykkel");
}

#[test]
fn describe_with_and_without_link() {
    let w = sample_wish(None);
    assert_eq!(
        w.describe(),
        "\nNavn: Sykkel\n    Pris: 1999.5\n    Butikk: XXL\n    Link: Ingen link"
    );
    let w = sample_wish(Some("https://xxl.no/"));
    assert_eq!(
        w.describe(),
        "\nNavn: Sykkel\n    Pris: 1999.5\n    Butikk: XXL\n    Link: https://xxl.no/"
    );
}

#[test]
fn password_pads_short_passphrase() {
    let key = password("abc");
    let mut expected = b"abc".to_vec();
    expected.extend(vec![13u8; 13]);
    assert_eq!(key, expected);
}

#[test]
fn password_cuts_long_passphrase() {
    assert_eq!(password("0123456789abcdefghij"), b"0123456789abcdef".to_vec());
    assert_eq!(password("0123456789abcdef"), b"0123456789abcdef".to_vec());
}

#[test]
fn password_empty_passphrase() {
    assert_eq!(password(""), vec![16u8; 16]);
}

#[test]
fn password_uses_utf8_bytes() {
    let key = password("ø");
    assert_eq!(&key[..2], "ø".as_bytes());
    assert_eq!(&key[2..], &[14u8; 14][..]);
}

#[test]
fn input_comparison() {
    assert!(input_is("y", "y"));
    assert!(!input_is("yes", "y"));
    assert!(!input_is("n", "y"));
    assert!(input_is("", ""));
}

#[test]
fn auth_choice() {
    assert_eq!(parse_auth_choice("in"), Some(AuthChoice::SignIn));
    assert_eq!(parse_auth_choice("up"), Some(AuthChoice::SignUp));
    assert_eq!(parse_auth_choice("out"), None);
}

#[test]
fn menu_choice() {
    assert_eq!(parse_menu_choice("1"), Some(MenuChoice::AddWishes));
    assert_eq!(parse_menu_choice("2"), Some(MenuChoice::ReadOwnWishlist));
    assert_eq!(parse_menu_choice("3"), Some(MenuChoice::ReadOtherWishlist));
    assert_eq!(parse_menu_choice("4"), Some(MenuChoice::ViewNotifications));
    assert_eq!(parse_menu_choice("5"), Some(MenuChoice::Exit));
    assert_eq!(parse_menu_choice("x"), None);
    assert!(MenuChoice::ReadOtherWishlist.failure_ends_session());
    assert!(MenuChoice::ViewNotifications.failure_ends_session());
    assert!(!MenuChoice::AddWishes.failure_ends_session());
}

#[test]
fn price_text_adds_decimals() {
    assert_eq!(price_text("250"), "250.0");
    assert_eq!(price_text("12.5"), "12.5");
    assert_eq!(price_text(""), ".0");
}

#[test]
fn link_text_adds_scheme() {
    assert_eq!(link_text("xxl.no"), "https://xxl.no");
    assert_eq!(link_text("http://xxl.no"), "http://xxl.no");
    assert_eq!(link_text("htt"), "https://htt");
}

#[test]
fn parse_link_normalizes_and_rejects() {
    assert_eq!(parse_link("xxl.no"), Some(String::from("https://xxl.no/")));
    assert_eq!(parse_link("http://"), None);
}

#[test]
fn wish_position_counts_from_one() {
    assert_eq!(wish_position(3, 1), Some(0));
    assert_eq!(wish_position(3, 3), Some(2));
    assert_eq!(wish_position(3, 4), None);
}

#[test]
fn queries() {
    assert_eq!(
        relate_query("user:2", "item:1"),
        "RELATE user:2->wishes_for->item:1;"
    );
    assert_eq!(
        own_wishes_query("user:2"),
        "SELECT ->wishes_for AS wishes FROM user:2 FETCH wishes, wishes.out;"
    );
    assert_eq!(
        user_wishes_query("ola"),
        "SELECT ->wishes_for AS wishes FROM user WHERE name = \"ola\" FETCH wishes, wishes.out;"
    );
    assert_eq!(
        remove_recipient_query("notification:7", "user:2"),
        "UPDATE notification:7 SET recipients -= user:2;"
    );
    assert_eq!(delete_query("wishes_for:9"), "DELETE wishes_for:9;");
    assert_eq!(
        mark_bought_query("item:1", "user:2"),
        "UPDATE item:1 SET bought += user:2;"
    );
}

#[test]
fn decrypt_with_zero_padding_gives_padded_text() {
    let (ciphertext, padding) = encrypt(KEY, b"abc");
    let mut padded = b"abc".to_vec();
    let q = pad(&mut padded);
    assert_eq!(q, padding);
    assert_eq!(decrypt(KEY, &ciphertext, 0), padded);
}

#[test]
fn decrypt_with_altered_padding_cuts_elsewhere() {
    let mut encrypted = EncryptedWishListElement::from_unencrypted(sample_wish(None), KEY);
    encrypted.paddings.name = 12;
    let w = encrypted.decrypt(KEY).unwrap();
    assert_eq!(w.name, "Sykk");
}

#[test]
fn later_malformed_field_after_failure_is_an_error() {
    let mut encrypted = EncryptedWishListElement::from_unencrypted(sample_wish(None), KEY);
    let (bad, p) = encrypt(KEY, &[0xff]);
    encrypted.name = bad;
    encrypted.paddings.name = p;
    encrypted.store = vec![1, 2, 3];
    assert!(encrypted.is_readable_in_order(KEY));
    assert!(matches!(encrypted.decrypt(KEY), Err(DecryptError::InvalidUtf8)));
}

#[test]
fn malformed_field_is_not_readable() {
    let mut encrypted = EncryptedWishListElement::from_unencrypted(sample_wish(None), KEY);
    encrypted.store = vec![1, 2, 3];
    assert!(!encrypted.is_readable_in_order(KEY));
    let mut encrypted = EncryptedWishListElement::from_unencrypted(sample_wish(Some("https://xxl.no/")), KEY);
    encrypted.paddings.link = None;
    assert!(!encrypted.is_readable_in_order(KEY));
    let encrypted = EncryptedWishListElement::from_unencrypted(sample_wish(Some("https://xxl.no/")), KEY);
    assert!(encrypted.is_readable_in_order(KEY));
}

#[test]
fn bought_wishes() {
    assert!(!wish_is_bought(&Vec::new()));
    assert!(wish_is_bought(&vec![String::from("user:3")]));
}

#[test]
fn notifications_naming_the_user() {
    let lists = vec![
        vec![String::from("user:1"), String::from("user:2")],
        vec![String::from("user:3")],
        vec![],
        vec![String::from("user:2")],
    ];
    assert_eq!(notifications_for(&lists, "user:2"), vec![0, 3]);
    assert_eq!(notifications_for(&lists, "user:9"), Vec::<usize>::new());
}
