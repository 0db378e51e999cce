use url::ParseError;
use url::Url;
use vstd::prelude::*;
use vstd::utf8::{decode_utf8, encode_utf8, valid_utf8};

use crate::crypto::{decrypt, decryptable, encrypt, spec_decrypt, spec_encrypt};
use crate::padding::lemma_pad_seq_len;

verus! {

broadcast use {vstd::utf8::encode_utf8_decode_utf8, vstd::utf8::encode_utf8_valid_utf8};

/// The error type of `url::Url::parse`, carried through as an opaque value.
#[verifier::external_type_specification]
#[verifier::external_body]
pub struct ExUrlParseError(ParseError);

/// What `url::Url::parse` makes of a text: the URL's serialization, or nothing
/// when the text is not a URL.
pub uninterp spec fn url_parse(input: Seq<char>) -> Option<Seq<char>>;

/// Parses `input` with `url::Url::parse` and returns the parsed URL's
/// serialization (`String::from(Url)`).
/// Trusted: success and its text are the named result of `Url::parse` on
/// `input`, and that text parses again to itself (an invariant of `Url` that
/// the crate's `Url::check_invariants` tests: parsing `as_str()` gives the same
/// serialization).
#[verifier::external_body]
pub(crate) fn parse_url(input: &str) -> (res: Result<String, ParseError>)
    ensures
        res is Ok <==> url_parse(input@) is Some,
        res matches Ok(s) ==> url_parse(input@) == Some(s@),
        res matches Ok(s) ==> url_parse(s@) == Some(s@),
{
    match Url::parse(input) {
        Ok(url) => Ok(String::from(url)),
        Err(e) => Err(e),
    }
}

/// Decodes `bytes` as UTF-8 with `String::from_utf8`.
/// Trusted: it succeeds exactly on valid UTF-8, with the decoded characters.
#[verifier::external_body]
fn string_from_utf8(bytes: Vec<u8>) -> (res: Option<String>)
    ensures
        res is Some <==> valid_utf8(bytes@),
        res matches Some(s) ==> s@ == decode_utf8(bytes@),
{
    String::from_utf8(bytes).ok()
}

/// The characters of an optional text.
pub open spec fn opt_text(o: Option<String>) -> Option<Seq<char>> {
    match o {
        Some(s) => Some(s@),
        None => None,
    }
}

/// The bytes of an optional byte string.
pub open spec fn opt_bytes(o: Option<Vec<u8>>) -> Option<Seq<u8>> {
    match o {
        Some(v) => Some(v@),
        None => None,
    }
}

/// A wish as plain text: its record id, name, price (the decimal text of the
/// amount), store and link (the serialization of a URL).
pub struct WishListElement {
    pub id: Option<String>,
    pub name: String,
    pub price: String,
    pub store: String,
    pub link: Option<String>,
}

/// The abstract value of a `WishListElement`.
pub struct WishView {
    pub id: Option<Seq<char>>,
    pub name: Seq<char>,
    pub price: Seq<char>,
    pub store: Seq<char>,
    pub link: Option<Seq<char>>,
}

impl View for WishListElement {
    type V = WishView;

    open spec fn view(&self) -> WishView {
        WishView {
            id: opt_text(self.id),
            name: self.name@,
            price: self.price@,
            store: self.store@,
            link: opt_text(self.link),
        }
    }
}

/// The number of padding bytes of each encrypted field.
#[derive(Clone, Copy, Debug, PartialEq, Eq, Structural)]
pub struct Paddings {
    pub name: u8,
    pub price: u8,
    pub store: u8,
    pub link: Option<u8>,
}

/// A wish whose fields are encrypted, as it is stored.
pub struct EncryptedWishListElement {
    pub id: Option<String>,
    pub name: Vec<u8>,
    pub price: Vec<u8>,
    pub store: Vec<u8>,
    pub link: Option<Vec<u8>>,
    pub paddings: Paddings,
}

/// The abstract value of an `EncryptedWishListElement`.
pub struct EncryptedView {
    pub id: Option<Seq<char>>,
    pub name: Seq<u8>,
    pub price: Seq<u8>,
    pub store: Seq<u8>,
    pub link: Option<Seq<u8>>,
    pub paddings: Paddings,
}

impl View for EncryptedWishListElement {
    type V = EncryptedView;

    open spec fn view(&self) -> EncryptedView {
        EncryptedView {
            id: opt_text(self.id),
            name: self.name@,
            price: self.price@,
            store: self.store@,
            link: opt_bytes(self.link),
            paddings: self.paddings,
        }
    }
}

/// Why an encrypted wish could not be read back.
#[derive(Debug)]
pub enum DecryptError {
    /// A decrypted field is not UTF-8 text.
    InvalidUtf8,
    /// The decrypted link is not a URL.
    InvalidLink(ParseError),
}

/// The kind of a `DecryptError`, as the contracts speak of it.
#[derive(Clone, Copy, Debug, PartialEq, Eq, Structural)]
pub enum DecryptFailure {
    Utf8,
    Link,
}

impl DecryptError {
    pub open spec fn failure(&self) -> DecryptFailure {
        match self {
            DecryptError::InvalidUtf8 => DecryptFailure::Utf8,
            DecryptError::InvalidLink(_) => DecryptFailure::Link,
        }
    }
}

/// An encrypted wish whose every field is whole blocks with a padding length of
/// at most one block, and whose link has a padding length exactly when there
/// is a link.
pub open spec fn well_formed(e: EncryptedView) -> bool {
    &&& decryptable(e.name, e.paddings.name)
    &&& decryptable(e.price, e.paddings.price)
    &&& decryptable(e.store, e.paddings.store)
    &&& match e.link {
        Some(l) => e.paddings.link is Some && decryptable(l, e.paddings.link->0),
        None => true,
    }
}

/// The text of one decrypted field: refused when its bytes are not UTF-8.
pub open spec fn decrypted_text(key: Seq<u8>, encrypted: Seq<u8>, padding: u8) -> Result<
    Seq<char>,
    DecryptFailure,
> {
    let bytes = spec_decrypt(key, encrypted, padding);
    if valid_utf8(bytes) {
        Ok(decode_utf8(bytes))
    } else {
        Err(DecryptFailure::Utf8)
    }
}

/// An encrypted wish that reading back under `key` accepts, field by field in
/// the order name, price, store, link: each field is whole blocks with a
/// padding length of at most one block (and the link has a padding length)
/// once every field before it has read back as text.
pub open spec fn readable_in_order(e: EncryptedView, key: Seq<u8>) -> bool {
    &&& decryptable(e.name, e.paddings.name)
    &&& decrypted_text(key, e.name, e.paddings.name) is Ok ==> decryptable(
        e.price,
        e.paddings.price,
    )
    &&& decrypted_text(key, e.name, e.paddings.name) is Ok && decrypted_text(
        key,
        e.price,
        e.paddings.price,
    ) is Ok ==> decryptable(e.store, e.paddings.store)
    &&& decrypted_text(key, e.name, e.paddings.name) is Ok && decrypted_text(
        key,
        e.price,
        e.paddings.price,
    ) is Ok && decrypted_text(key, e.store, e.paddings.store) is Ok ==> match e.link {
        Some(l) => e.paddings.link is Some && decryptable(l, e.paddings.link->0),
        None => true,
    }
}

/// What reading back an encrypted wish gives: the decrypted texts, the link
/// parsed as a URL. The fields are read in the order name, price, store, link;
/// the first one that is not UTF-8, or a link that is not a URL, makes it fail.
pub open spec fn spec_from_encrypted(e: EncryptedView, key: Seq<u8>) -> Result<
    WishView,
    DecryptFailure,
> {
    match decrypted_text(key, e.name, e.paddings.name) {
        Err(f) => Err(f),
        Ok(name) => match decrypted_text(key, e.price, e.paddings.price) {
            Err(f) => Err(f),
            Ok(price) => match decrypted_text(key, e.store, e.paddings.store) {
                Err(f) => Err(f),
                Ok(store) => {
                    let fields = WishView { id: e.id, name, price, store, link: None };
                    match e.link {
                        None => Ok(fields),
                        Some(l) => match decrypted_text(key, l, e.paddings.link->0) {
                            Err(f) => Err(f),
                            Ok(text) => match url_parse(text) {
                                None => Err(DecryptFailure::Link),
                                Some(u) => Ok(WishView { link: Some(u), ..fields }),
                            },
                        },
                    }
                },
            },
        },
    }
}

/// The encrypted form of a wish: each text's UTF-8 bytes encrypted under `key`,
/// and no record id.
pub open spec fn spec_from_unencrypted(w: WishView, key: Seq<u8>) -> EncryptedView {
    let name = spec_encrypt(key, encode_utf8(w.name));
    let price = spec_encrypt(key, encode_utf8(w.price));
    let store = spec_encrypt(key, encode_utf8(w.store));
    let link = match w.link {
        Some(l) => Some(spec_encrypt(key, encode_utf8(l))),
        None => None,
    };
    EncryptedView {
        id: None,
        name: name.0,
        price: price.0,
        store: store.0,
        link: match link {
            Some(c) => Some(c.0),
            None => None,
        },
        paddings: Paddings {
            name: name.1,
            price: price.1,
            store: store.1,
            link: match link {
                Some(c) => Some(c.1),
                None => None,
            },
        },
    }
}

/// What reading back the encrypted form of `w` gives: `w` without record id,
/// with its link parsed as a URL.
pub open spec fn round_trip(w: WishView) -> Result<WishView, DecryptFailure> {
    let fields = WishView { id: None, link: None, ..w };
    match w.link {
        None => Ok(fields),
        Some(l) => match url_parse(l) {
            None => Err(DecryptFailure::Link),
            Some(u) => Ok(WishView { link: Some(u), ..fields }),
        },
    }
}

/// An encrypted wish whose every field is whole blocks is read back under any
/// key without failing on its form.
pub proof fn lemma_well_formed_readable(e: EncryptedView, key: Seq<u8>)
    requires
        well_formed(e),
    ensures
        readable_in_order(e, key),
{
}

/// A wish whose link is already a URL serialization (one that parses to
/// itself) comes back from its encrypted form unchanged but for the record id.
pub proof fn lemma_round_trip_keeps_parsed_link(w: WishView)
    requires
        w.link matches Some(l) ==> url_parse(l) == Some(l),
    ensures
        round_trip(w) == Ok::<WishView, DecryptFailure>(WishView { id: None, ..w }),
{
}

impl WishListElement {
    /// A wish without record id.
    pub fn new(name: String, price: String, store: String, link: Option<String>) -> (res: Self)
        ensures
            res@ == (WishView { id: None, name: name@, price: price@, store: store@, link: opt_text(link) }),
    {
        WishListElement { id: None, name, price, store, link }
    }

    /// Reads back an encrypted wish with `decryption_key`, field by field in the
    /// order name, price, store, link: decrypts the field, decodes it as UTF-8
    /// (and parses the link as a URL), and stops at the first failure. The
    /// encrypted form of a wish reads back as that wish (without record id,
    /// with its link parsed).
    pub fn from_encrypted(encrypted: &EncryptedWishListElement, decryption_key: &[u8]) -> (res:
        Result<Self, DecryptError>)
        requires
            decryption_key@.len() >= 16,
            readable_in_order(encrypted@, decryption_key@),
        ensures
            match res {
                Ok(w) => spec_from_encrypted(encrypted@, decryption_key@) == Ok::<
                    WishView,
                    DecryptFailure,
                >(w@),
                Err(e) => spec_from_encrypted(encrypted@, decryption_key@) == Err::<
                    WishView,
                    DecryptFailure,
                >(e.failure()),
            },
            forall|w: WishView|
                #[trigger] spec_from_unencrypted(w, decryption_key@) == encrypted@
                    ==> spec_from_encrypted(encrypted@, decryption_key@) == round_trip(w),
    {
        let key = decryption_key;
        let name_bytes = decrypt(key, encrypted.name.as_slice(), encrypted.paddings.name);
        let ghost nb = name_bytes@;
        let name = match string_from_utf8(name_bytes) {
            Some(s) => s,
            None => {
                proof {
                    assert forall|w: WishView|
                        #[trigger] spec_from_unencrypted(w, key@) == encrypted@ implies false by {
                        assert(spec_encrypt(key@, encode_utf8(w.name)) == (
                            encrypted@.name,
                            encrypted@.paddings.name,
                        ));
                        assert(valid_utf8(nb));
                    }
                }
                return Err(DecryptError::InvalidUtf8);
            },
        };
        let price_bytes = decrypt(key, encrypted.price.as_slice(), encrypted.paddings.price);
        let ghost pb = price_bytes@;
        let price = match string_from_utf8(price_bytes) {
            Some(s) => s,
            None => {
                proof {
                    assert forall|w: WishView|
                        #[trigger] spec_from_unencrypted(w, key@) == encrypted@ implies false by {
                        assert(spec_encrypt(key@, encode_utf8(w.price)) == (
                            encrypted@.price,
                            encrypted@.paddings.price,
                        ));
                        assert(valid_utf8(pb));
                    }
                }
                return Err(DecryptError::InvalidUtf8);
            },
        };
        let store_bytes = decrypt(key, encrypted.store.as_slice(), encrypted.paddings.store);
        let ghost sb = store_bytes@;
        let store = match string_from_utf8(store_bytes) {
            Some(s) => s,
            None => {
                proof {
                    assert forall|w: WishView|
                        #[trigger] spec_from_unencrypted(w, key@) == encrypted@ implies false by {
                        assert(spec_encrypt(key@, encode_utf8(w.store)) == (
                            encrypted@.store,
                            encrypted@.paddings.store,
                        ));
                        assert(valid_utf8(sb));
                    }
                }
                return Err(DecryptError::InvalidUtf8);
            },
        };
        proof {
            assert forall|w: WishView| #[trigger] spec_from_unencrypted(w, key@) == encrypted@ implies {
                &&& decrypted_text(key@, encrypted@.name, encrypted@.paddings.name) == Ok::<
                    Seq<char>,
                    DecryptFailure,
                >(w.name)
                &&& decrypted_text(key@, encrypted@.price, encrypted@.paddings.price) == Ok::<
                    Seq<char>,
                    DecryptFailure,
                >(w.price)
                &&& decrypted_text(key@, encrypted@.store, encrypted@.paddings.store) == Ok::<
                    Seq<char>,
                    DecryptFailure,
                >(w.store)
            } by {
                assert(spec_encrypt(key@, encode_utf8(w.name)) == (
                    encrypted@.name,
                    encrypted@.paddings.name,
                ));
                assert(spec_encrypt(key@, encode_utf8(w.price)) == (
                    encrypted@.price,
                    encrypted@.paddings.price,
                ));
                assert(spec_encrypt(key@, encode_utf8(w.store)) == (
                    encrypted@.store,
                    encrypted@.paddings.store,
                ));
            }
        }
        let link = match &encrypted.link {
            None => None,
            Some(l) => {
                let link_bytes = decrypt(key, l.as_slice(), encrypted.paddings.link.unwrap());
                let ghost lb = link_bytes@;
                match string_from_utf8(link_bytes) {
                    None => {
                        proof {
                            assert forall|w: WishView|
                                #[trigger] spec_from_unencrypted(w, key@) == encrypted@ implies false by {
                                assert(spec_encrypt(key@, encode_utf8(w.link->0)) == (
                                    encrypted@.link->0,
                                    encrypted@.paddings.link->0,
                                ));
                                assert(valid_utf8(lb));
                            }
                        }
                        return Err(DecryptError::InvalidUtf8);
                    },
                    Some(text) => {
                        proof {
                            assert forall|w: WishView|
                                #[trigger] spec_from_unencrypted(w, key@) == encrypted@ implies text@
                                == w.link->0 by {
                                assert(spec_encrypt(key@, encode_utf8(w.link->0)) == (
                                    encrypted@.link->0,
                                    encrypted@.paddings.link->0,
                                ));
                            }
                        }
                        match parse_url(text.as_str()) {
                            Ok(u) => Some(u),
                            Err(e) => return Err(DecryptError::InvalidLink(e)),
                        }
                    },
                }
            },
        };
        let id = match &encrypted.id {
            Some(s) => Some(s.clone()),
            None => None,
        };
        Ok(WishListElement { id, name, price, store, link })
    }
}

impl EncryptedWishListElement {
    /// Encrypts every field of the wish under `encryption_key`; the record id is left out.
    pub fn from_unencrypted(wish_list_element: WishListElement, encryption_key: &[u8]) -> (res:
        Self)
        requires
            encryption_key@.len() >= 16,
        ensures
            res@ == spec_from_unencrypted(wish_list_element@, encryption_key@),
            well_formed(res@),
    {
        let w = wish_list_element;
        let key = encryption_key;
        let (enc_name, name_padding) = encrypt(key, w.name.as_str().as_bytes());
        let (enc_price, price_padding) = encrypt(key, w.price.as_str().as_bytes());
        let (enc_store, store_padding) = encrypt(key, w.store.as_str().as_bytes());
        proof {
            lemma_pad_seq_len(encode_utf8(w.name@));
            lemma_pad_seq_len(encode_utf8(w.price@));
            lemma_pad_seq_len(encode_utf8(w.store@));
        }
        let (enc_link, link_padding) = match &w.link {
            Some(link) => {
                let (c, p) = encrypt(key, link.as_str().as_bytes());
                proof {
                    lemma_pad_seq_len(encode_utf8(link@));
                }
                (Some(c), Some(p))
            },
            None => (None, None),
        };
        EncryptedWishListElement {
            id: None,
            name: enc_name,
            price: enc_price,
            store: enc_store,
            link: enc_link,
            paddings: Paddings {
                name: name_padding,
                price: price_padding,
                store: store_padding,
                link: link_padding,
            },
        }
    }

    /// Whether reading back under `decryption_key` accepts this wish (see
    /// `readable_in_order`).
    pub fn is_readable_in_order(&self, decryption_key: &[u8]) -> (res: bool)
        requires
            decryption_key@.len() >= 16,
        ensures
            res == readable_in_order(self@, decryption_key@),
    {
        let key = decryption_key;
        let p = self.paddings;
        if !(self.name.len() % 16 == 0 && (self.name.len() == 0 || p.name <= 16)) {
            return false;
        }
        if string_from_utf8(decrypt(key, self.name.as_slice(), p.name)).is_none() {
            return true;
        }
        if !(self.price.len() % 16 == 0 && (self.price.len() == 0 || p.price <= 16)) {
            return false;
        }
        if string_from_utf8(decrypt(key, self.price.as_slice(), p.price)).is_none() {
            return true;
        }
        if !(self.store.len() % 16 == 0 && (self.store.len() == 0 || p.store <= 16)) {
            return false;
        }
        if string_from_utf8(decrypt(key, self.store.as_slice(), p.store)).is_none() {
            return true;
        }
        match &self.link {
            Some(l) => match p.link {
                Some(lp) => l.len() % 16 == 0 && (l.len() == 0 || lp <= 16),
                None => false,
            },
            None => true,
        }
    }

    /// Reads back this wish with `decryption_key` (see `WishListElement::from_encrypted`).
    pub fn decrypt(&self, decryption_key: &[u8]) -> (res: Result<WishListElement, DecryptError>)
        requires
            decryption_key@.len() >= 16,
            readable_in_order(self@, decryption_key@),
        ensures
            match res {
                Ok(w) => spec_from_encrypted(self@, decryption_key@) == Ok::<
                    WishView,
                    DecryptFailure,
                >(w@),
                Err(e) => spec_from_encrypted(self@, decryption_key@) == Err::<
                    WishView,
                    DecryptFailure,
                >(e.failure()),
            },
            forall|w: WishView|
                #[trigger] spec_from_unencrypted(w, decryption_key@) == self@
                    ==> spec_from_encrypted(self@, decryption_key@) == round_trip(w),
    {
        WishListElement::from_encrypted(self, decryption_key)
    }
}

/// The wishes of `items` that read back under `key`, each with its position
/// in `items`, in the order of `items`.
pub open spec fn readable(items: Seq<EncryptedView>, key: Seq<u8>) -> Seq<(int, WishView)>
    decreases items.len(),
{
    if items.len() == 0 {
        Seq::empty()
    } else {
        let n = items.len() - 1;
        let front = readable(items.take(n), key);
        match spec_from_encrypted(items[n], key) {
            Ok(w) => front.push((n, w)),
            Err(_) => front,
        }
    }
}

/// Every entry of `readable` is a position of `items` with the wish that the
/// encrypted wish there reads back to.
pub proof fn lemma_readable_sound(items: Seq<EncryptedView>, key: Seq<u8>, j: int)
    requires
        0 <= j < readable(items, key).len(),
    ensures
        0 <= readable(items, key)[j].0 < items.len(),
        spec_from_encrypted(items[readable(items, key)[j].0], key) == Ok::<
            WishView,
            DecryptFailure,
        >(readable(items, key)[j].1),
    decreases items.len(),
{
    let n = items.len() - 1;
    let front = readable(items.take(n), key);
    if j < front.len() {
        lemma_readable_sound(items.take(n), key, j);
        assert(items.take(n)[front[j].0] == items[front[j].0]);
    }
}

/// Every position of `items` whose encrypted wish reads back, from the first
/// to the last, is in `readable` with that wish.
pub proof fn lemma_readable_complete(items: Seq<EncryptedView>, key: Seq<u8>, i: int)
    requires
        0 <= i < items.len(),
        spec_from_encrypted(items[i], key) is Ok,
    ensures
        exists|j: int|
            0 <= j < readable(items, key).len() && #[trigger] readable(items, key)[j] == (
                i,
                spec_from_encrypted(items[i], key)->Ok_0,
            ),
    decreases items.len(),
{
    let n = items.len() - 1;
    let front = readable(items.take(n), key);
    if i == n {
        assert(readable(items, key)[front.len() as int] == (
            i,
            spec_from_encrypted(items[i], key)->Ok_0,
        ));
    } else {
        assert(items.take(n)[i] == items[i]);
        lemma_readable_complete(items.take(n), key, i);
        let j = choose|j: int|
            0 <= j < front.len() && #[trigger] front[j] == (
                i,
                spec_from_encrypted(items[i], key)->Ok_0,
            );
        assert(readable(items, key)[j] == front[j]);
    }
}

/// The positions in `readable` rise.
pub proof fn lemma_readable_increasing(items: Seq<EncryptedView>, key: Seq<u8>, j1: int, j2: int)
    requires
        0 <= j1 < j2 < readable(items, key).len(),
    ensures
        readable(items, key)[j1].0 < readable(items, key)[j2].0,
    decreases items.len(),
{
    let n = items.len() - 1;
    let front = readable(items.take(n), key);
    if j2 < front.len() {
        lemma_readable_increasing(items.take(n), key, j1, j2);
    } else {
        lemma_readable_sound(items.take(n), key, j1);
    }
}

/// The encrypted wishes of a list as abstract values.
pub open spec fn encrypted_views(items: Seq<EncryptedWishListElement>) -> Seq<EncryptedView> {
    items.map_values(|e: EncryptedWishListElement| e@)
}

/// Reads back every wish of `items` with `key` and keeps those that read
/// back, with their positions in `items`.
pub fn readable_wishes(items: &Vec<EncryptedWishListElement>, key: &[u8]) -> (res: Vec<
    (usize, WishListElement),
>)
    requires
        key@.len() >= 16,
        forall|i: int| 0 <= i < items@.len() ==> readable_in_order(#[trigger] items@[i]@, key@),
    ensures
        res@.len() == readable(encrypted_views(items@), key@).len(),
        forall|j: int|
            0 <= j < res@.len() ==> ((#[trigger] res@[j]).0 as int, res@[j].1@) == readable(
                encrypted_views(items@),
                key@,
            )[j],
        forall|j: int|
            0 <= j < res@.len() ==> (#[trigger] res@[j]).0 < items@.len() && spec_from_encrypted(
                items@[res@[j].0 as int]@,
                key@,
            ) == Ok::<WishView, DecryptFailure>(res@[j].1@),
        forall|i: int|
            0 <= i < items@.len() && (#[trigger] spec_from_encrypted(items@[i]@, key@)) is Ok
                ==> exists|j: int|
                0 <= j < res@.len() && (#[trigger] res@[j]).0 as int == i && res@[j].1@
                    == spec_from_encrypted(items@[i]@, key@)->Ok_0,
        forall|j1: int, j2: int|
            0 <= j1 < j2 < res@.len() ==> (#[trigger] res@[j1]).0 < (#[trigger] res@[j2]).0,
{
    let mut res: Vec<(usize, WishListElement)> = Vec::new();
    let mut i: usize = 0;
    while i < items.len()
        invariant
            key@.len() >= 16,
            i <= items@.len(),
            forall|k: int| 0 <= k < items@.len() ==> readable_in_order(#[trigger] items@[k]@, key@),
            res@.len() == readable(encrypted_views(items@).take(i as int), key@).len(),
            forall|j: int|
                0 <= j < res@.len() ==> ((#[trigger] res@[j]).0 as int, res@[j].1@) == readable(
                    encrypted_views(items@).take(i as int),
                    key@,
                )[j],
        decreases items@.len() - i,
    {
        let ghost views = encrypted_views(items@);
        assert(views.take(i + 1).take(i as int) =~= views.take(i as int));
        assert(views.take(i + 1)[i as int] == items@[i as int]@);
        match items[i].decrypt(key) {
            Ok(w) => {
                res.push((i, w));
            },
            Err(_) => {},
        }
        i = i + 1;
    }
    assert(encrypted_views(items@).take(items@.len() as int) =~= encrypted_views(items@));
    proof {
        let views = encrypted_views(items@);
        let spec = readable(views, key@);
        assert forall|j: int| 0 <= j < res@.len() implies (#[trigger] res@[j]).0 < items@.len()
            && spec_from_encrypted(items@[res@[j].0 as int]@, key@) == Ok::<
            WishView,
            DecryptFailure,
        >(res@[j].1@) by {
            lemma_readable_sound(views, key@, j);
            assert(views[spec[j].0] == items@[res@[j].0 as int]@);
        }
        assert forall|i: int|
            0 <= i < items@.len() && (#[trigger] spec_from_encrypted(items@[i]@, key@)) is Ok implies exists|
            j: int,
        |
            0 <= j < res@.len() && (#[trigger] res@[j]).0 as int == i && res@[j].1@
                == spec_from_encrypted(items@[i]@, key@)->Ok_0 by {
            assert(views[i] == items@[i]@);
            lemma_readable_complete(views, key@, i);
            let j = choose|j: int|
                0 <= j < spec.len() && #[trigger] spec[j] == (
                    i,
                    spec_from_encrypted(views[i], key@)->Ok_0,
                );
            assert(((res@[j]).0 as int, res@[j].1@) == spec[j]);
        }
        assert forall|j1: int, j2: int| 0 <= j1 < j2 < res@.len() implies (#[trigger] res@[j1]).0
            < (#[trigger] res@[j2]).0 by {
            lemma_readable_increasing(views, key@, j1, j2);
            assert(((res@[j1]).0 as int, res@[j1].1@) == spec[j1]);
            assert(((res@[j2]).0 as int, res@[j2].1@) == spec[j2]);
        }
    }
    res
}

impl WishListElement {
    /// The text that shows this wish: name, price, store and link, one per
    /// line, "Ingen link" where there is no link.
    pub fn describe(&self) -> (res: String)
        ensures
            res@ == "\nNavn: "@ + self.name@ + "\n    Pris: "@ + self.price@ + "\n    Butikk: "@
                + self.store@ + "\n    Link: "@ + match self.link {
                Some(l) => l@,
                None => "Ingen link"@,
            },
    {
        let mut res = String::from_str("\nNavn: ");
        res.append(self.name.as_str());
        res.append("\n    Pris: ");
        res.append(self.price.as_str());
        res.append("\n    Butikk: ");
        res.append(self.store.as_str());
        res.append("\n    Link: ");
        match &self.link {
            Some(l) => res.append(l.as_str()),
            None => res.append("Ingen link"),
        }
        res
    }
}

} // verus!
