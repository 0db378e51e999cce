use vstd::prelude::*;
use vstd::slice::slice_to_vec;
use vstd::utf8::{decode_utf8, encode_utf8};

use crate::padding::{lemma_pad_seq_len, pad, pad_seq};
use crate::wish::{opt_text, parse_url, url_parse};

verus! {

broadcast use {vstd::utf8::encode_utf8_decode_utf8, vstd::utf8::encode_utf8_valid_utf8};

/// The 16-byte key made from a typed passphrase: its UTF-8 bytes, padded when
/// shorter than 16 bytes, cut to the first 16 bytes otherwise.
pub open spec fn passphrase_key(bytes: Seq<u8>) -> Seq<u8> {
    if bytes.len() < 16 {
        pad_seq(bytes)
    } else {
        bytes.take(16)
    }
}

/// The key made from passphrase bytes `bytes`: 16 bytes, the first of which
/// are the passphrase's own bytes (all of them, or its first 16), and, for a
/// passphrase of `n < 16` bytes, the rest `16 - n` bytes of value `16 - n`.
pub proof fn lemma_passphrase_key(bytes: Seq<u8>)
    ensures
        passphrase_key(bytes).len() == 16,
        forall|i: int|
            0 <= i < 16 && i < bytes.len() ==> #[trigger] passphrase_key(bytes)[i] == bytes[i],
        bytes.len() < 16 ==> forall|i: int|
            bytes.len() <= i < 16 ==> #[trigger] passphrase_key(bytes)[i] == (16
                - bytes.len()) as u8,
{
    lemma_pad_seq_len(bytes);
}

/// Makes the 16-byte encryption key from the passphrase the user typed: the
/// passphrase's UTF-8 bytes (its first 16), padded with `16 - n` bytes of value
/// `16 - n` when it has `n < 16` bytes.
pub fn password(entered: &str) -> (key: Vec<u8>)
    ensures
        key@ == passphrase_key(encode_utf8(entered@)),
        key@.len() == 16,
        forall|i: int|
            0 <= i < 16 && i < encode_utf8(entered@).len() ==> #[trigger] key@[i] == encode_utf8(
                entered@,
            )[i],
        encode_utf8(entered@).len() < 16 ==> forall|i: int|
            encode_utf8(entered@).len() <= i < 16 ==> #[trigger] key@[i] == (16 - encode_utf8(
                entered@,
            ).len()) as u8,
{
    proof {
        lemma_passphrase_key(encode_utf8(entered@));
    }
    let mut key = slice_to_vec(entered.as_bytes());
    if key.len() < 16 {
        pad(&mut key);
        proof {
            lemma_pad_seq_len(encode_utf8(entered@));
        }
    }
    let mut key_ref: Vec<u8> = Vec::new();
    let mut i: usize = 0;
    while i < 16
        invariant
            i <= 16,
            key@.len() >= 16,
            key_ref@ == key@.take(i as int),
        decreases 16 - i,
    {
        key_ref.push(key[i]);
        i = i + 1;
        assert(key_ref@ =~= key@.take(i as int));
    }
    proof {
        lemma_pad_seq_len(encode_utf8(entered@));
        if encode_utf8(entered@).len() < 16 {
            assert(key@.take(16) =~= key@);
        }
    }
    key_ref
}

/// Whether the typed `input` is exactly `expected`.
pub fn input_is(input: &str, expected: &str) -> (res: bool)
    ensures
        res == (input@ == expected@),
{
    let a = input.as_bytes();
    let b = expected.as_bytes();
    if a.len() != b.len() {
        return false;
    }
    let mut i: usize = 0;
    while i < a.len()
        invariant
            a@ == encode_utf8(input@),
            b@ == encode_utf8(expected@),
            a@.len() == b@.len(),
            i <= a@.len(),
            forall|j: int| 0 <= j < i ==> a@[j] == b@[j],
        decreases a@.len() - i,
    {
        if a[i] != b[i] {
            assert(a@ != b@);
            return false;
        }
        i = i + 1;
    }
    assert(a@ =~= b@);
    assert(decode_utf8(encode_utf8(input@)) == input@);
    assert(decode_utf8(encode_utf8(expected@)) == expected@);
    true
}

/// The two ways into an account.
#[derive(Clone, Copy, Debug, PartialEq, Eq, Structural)]
pub enum AuthChoice {
    SignIn,
    SignUp,
}

/// The answer to "Sign in or sign up? (in/up)": "in" signs in, "up" signs up;
/// anything else is invalid.
pub fn parse_auth_choice(input: &str) -> (res: Option<AuthChoice>)
    ensures
        res == (if input@ == "in"@ {
            Some(AuthChoice::SignIn)
        } else if input@ == "up"@ {
            Some(AuthChoice::SignUp)
        } else {
            None
        }),
{
    if input_is(input, "in") {
        Some(AuthChoice::SignIn)
    } else if input_is(input, "up") {
        Some(AuthChoice::SignUp)
    } else {
        None
    }
}

/// The actions of the main menu.
#[derive(Clone, Copy, Debug, PartialEq, Eq, Structural)]
pub enum MenuChoice {
    AddWishes,
    ReadOwnWishlist,
    ReadOtherWishlist,
    ViewNotifications,
    Exit,
}

/// The answer to the main menu: "1" adds wishes, "2" reads one's own
/// wishlist, "3" reads another user's wishlist, "4" shows one's
/// notifications, "5" exits; anything else is invalid.
pub fn parse_menu_choice(input: &str) -> (res: Option<MenuChoice>)
    ensures
        res == (if input@ == "1"@ {
            Some(MenuChoice::AddWishes)
        } else if input@ == "2"@ {
            Some(MenuChoice::ReadOwnWishlist)
        } else if input@ == "3"@ {
            Some(MenuChoice::ReadOtherWishlist)
        } else if input@ == "4"@ {
            Some(MenuChoice::ViewNotifications)
        } else if input@ == "5"@ {
            Some(MenuChoice::Exit)
        } else {
            None
        }),
{
    if input_is(input, "1") {
        Some(MenuChoice::AddWishes)
    } else if input_is(input, "2") {
        Some(MenuChoice::ReadOwnWishlist)
    } else if input_is(input, "3") {
        Some(MenuChoice::ReadOtherWishlist)
    } else if input_is(input, "4") {
        Some(MenuChoice::ViewNotifications)
    } else if input_is(input, "5") {
        Some(MenuChoice::Exit)
    } else {
        None
    }
}

impl MenuChoice {
    /// Whether a failure of this action ends the session (reading another
    /// user's wishlist, viewing notifications) rather than being reported
    /// before the menu returns.
    pub fn failure_ends_session(&self) -> (res: bool)
        ensures
            res == (*self == MenuChoice::ReadOtherWishlist || *self
                == MenuChoice::ViewNotifications),
    {
        match self {
            MenuChoice::ReadOtherWishlist => true,
            MenuChoice::ViewNotifications => true,
            _ => false,
        }
    }
}

/// The price text as it is parsed: the typed text, with ".0" appended when it
/// has no decimal point.
pub open spec fn price_text_spec(input: Seq<char>) -> Seq<char> {
    if input.contains('.') {
        input
    } else {
        input + seq!['.', '0']
    }
}

/// A typed price with a decimal point anywhere is kept as it is; one without
/// gets ".0" appended.
pub proof fn lemma_price_text(input: Seq<char>)
    ensures
        (exists|i: int| 0 <= i < input.len() && input[i] == '.') ==> price_text_spec(input)
            == input,
        (forall|i: int| 0 <= i < input.len() ==> input[i] != '.') ==> price_text_spec(input)
            == input + seq!['.', '0'],
{
}

/// Appends ".0" to a typed price that has no decimal point.
pub fn price_text(input: &str) -> (res: String)
    ensures
        res@ == price_text_spec(input@),
        (exists|i: int| 0 <= i < input@.len() && input@[i] == '.') ==> res@ == input@,
        (forall|i: int| 0 <= i < input@.len() ==> input@[i] != '.') ==> res@ == input@ + seq![
            '.',
            '0',
        ],
{
    proof {
        lemma_price_text(input@);
    }
    let n = input.unicode_len();
    let mut i: usize = 0;
    let mut has_point = false;
    while i < n
        invariant
            n == input@.len(),
            i <= n,
            has_point == (exists|j: int| 0 <= j < i && input@[j] == '.'),
        decreases n - i,
    {
        if input.get_char(i) == '.' {
            has_point = true;
        }
        i = i + 1;
    }
    let mut res = String::from_str(input);
    if !has_point {
        res.append(".0");
        proof {
            reveal_strlit(".0");
        }
        assert(!input@.contains('.'));
        assert(res@ =~= input@ + seq!['.', '0']);
    } else {
        proof {
            let j = choose|j: int| 0 <= j < n && input@[j] == '.';
            assert(input@.contains('.'));
        }
    }
    res
}

/// The link as it is parsed: the typed text, with "https://" in front when it
/// does not start with "http".
pub open spec fn link_text_spec(input: Seq<char>) -> Seq<char> {
    if input.len() >= 4 && input.take(4) == seq!['h', 't', 't', 'p'] {
        input
    } else {
        seq!['h', 't', 't', 'p', 's', ':', '/', '/'] + input
    }
}

/// A typed link whose first four characters are "http" is kept as it is;
/// any other gets "https://" in front.
pub proof fn lemma_link_text(input: Seq<char>)
    ensures
        (input.len() >= 4 && input[0] == 'h' && input[1] == 't' && input[2] == 't' && input[3]
            == 'p') ==> link_text_spec(input) == input,
        !(input.len() >= 4 && input[0] == 'h' && input[1] == 't' && input[2] == 't' && input[3]
            == 'p') ==> link_text_spec(input) == seq!['h', 't', 't', 'p', 's', ':', '/', '/']
            + input,
{
    if input.len() >= 4 && input[0] == 'h' && input[1] == 't' && input[2] == 't' && input[3]
        == 'p' {
        assert(input.take(4) =~= seq!['h', 't', 't', 'p']);
    } else if input.len() >= 4 {
        if input.take(4) == seq!['h', 't', 't', 'p'] {
            assert(input.take(4)[0] == input[0]);
            assert(input.take(4)[1] == input[1]);
            assert(input.take(4)[2] == input[2]);
            assert(input.take(4)[3] == input[3]);
        }
    }
}

/// Puts "https://" in front of a typed link that does not start with "http".
pub fn link_text(input: &str) -> (res: String)
    ensures
        res@ == link_text_spec(input@),
        (input@.len() >= 4 && input@[0] == 'h' && input@[1] == 't' && input@[2] == 't'
            && input@[3] == 'p') ==> res@ == input@,
        !(input@.len() >= 4 && input@[0] == 'h' && input@[1] == 't' && input@[2] == 't'
            && input@[3] == 'p') ==> res@ == seq!['h', 't', 't', 'p', 's', ':', '/', '/']
            + input@,
{
    proof {
        lemma_link_text(input@);
    }
    let n = input.unicode_len();
    let starts_with_http = n >= 4 && input.get_char(0) == 'h' && input.get_char(1) == 't'
        && input.get_char(2) == 't' && input.get_char(3) == 'p';
    if starts_with_http {
        assert(input@.take(4) =~= seq!['h', 't', 't', 'p']);
        String::from_str(input)
    } else {
        if n >= 4 {
            assert(input@.take(4) != seq!['h', 't', 't', 'p']) by {
                if input@.take(4) == seq!['h', 't', 't', 'p'] {
                    assert(input@.take(4)[0] == input@[0]);
                    assert(input@.take(4)[1] == input@[1]);
                    assert(input@.take(4)[2] == input@[2]);
                    assert(input@.take(4)[3] == input@[3]);
                }
            }
        }
        let mut res = String::from_str("https://");
        res.append(input);
        proof {
            reveal_strlit("https://");
        }
        assert(res@ =~= seq!['h', 't', 't', 'p', 's', ':', '/', '/'] + input@);
        res
    }
}

/// The link of a new wish from the typed text: "https://" put in front when
/// it does not start with "http", then parsed as a URL; no link when it is
/// not a URL.
pub fn parse_link(input: &str) -> (res: Option<String>)
    ensures
        opt_text(res) == url_parse(link_text_spec(input@)),
        res matches Some(s) ==> url_parse(s@) == Some(s@),
{
    let text = link_text(input);
    match parse_url(text.as_str()) {
        Ok(u) => Some(u),
        Err(_) => None,
    }
}

/// The position of the wish that the user numbered `index`, counting from 1,
/// among `count` wishes.
pub fn wish_position(count: usize, index: usize) -> (res: Option<usize>)
    requires
        index >= 1,
    ensures
        res == (if index - 1 < count {
            Some((index - 1) as usize)
        } else {
            None
        }),
{
    if index - 1 < count {
        Some(index - 1)
    } else {
        None
    }
}

/// `RELATE {auth_id}->wishes_for->{item_id};`: connects the user's account to
/// a new wish.
pub fn relate_query(auth_id: &str, item_id: &str) -> (res: String)
    ensures
        res@ == "RELATE "@ + auth_id@ + "->wishes_for->"@ + item_id@ + ";"@,
{
    let mut q = String::from_str("RELATE ");
    q.append(auth_id);
    q.append("->wishes_for->");
    q.append(item_id);
    q.append(";");
    q
}

/// `SELECT ->wishes_for AS wishes FROM {auth_id} FETCH wishes, wishes.out;`:
/// the wishes of the signed-in user, with the connections to them.
pub fn own_wishes_query(auth_id: &str) -> (res: String)
    ensures
        res@ == "SELECT ->wishes_for AS wishes FROM "@ + auth_id@
            + " FETCH wishes, wishes.out;"@,
{
    let mut q = String::from_str("SELECT ->wishes_for AS wishes FROM ");
    q.append(auth_id);
    q.append(" FETCH wishes, wishes.out;");
    q
}

/// `SELECT ->wishes_for AS wishes FROM user WHERE name = "{name}" FETCH wishes, wishes.out;`:
/// the wishes of the user called `name`, with the connections to them.
pub fn user_wishes_query(name: &str) -> (res: String)
    ensures
        res@ == "SELECT ->wishes_for AS wishes FROM user WHERE name = \""@ + name@
            + "\" FETCH wishes, wishes.out;"@,
{
    let mut q = String::from_str("SELECT ->wishes_for AS wishes FROM user WHERE name = \"");
    q.append(name);
    q.append("\" FETCH wishes, wishes.out;");
    q
}

/// `DELETE {wish_id};`: removes the connection between a user and a wish.
pub fn delete_query(wish_id: &str) -> (res: String)
    ensures
        res@ == "DELETE "@ + wish_id@ + ";"@,
{
    let mut q = String::from_str("DELETE ");
    q.append(wish_id);
    q.append(";");
    q
}

/// `UPDATE {wish_id} SET bought += {auth_id};`: marks a wish as bought by the user.
pub fn mark_bought_query(wish_id: &str, auth_id: &str) -> (res: String)
    ensures
        res@ == "UPDATE "@ + wish_id@ + " SET bought += "@ + auth_id@ + ";"@,
{
    let mut q = String::from_str("UPDATE ");
    q.append(wish_id);
    q.append(" SET bought += ");
    q.append(auth_id);
    q.append(";");
    q
}

/// Whether a wish has been bought: someone is in its list of buyers.
pub fn wish_is_bought(bought: &Vec<String>) -> (res: bool)
    ensures
        res == (bought@.len() > 0),
{
    bought.len() > 0
}

/// Whether `user` is among `recipients`.
pub open spec fn names_user(recipients: Seq<String>, user: Seq<char>) -> bool {
    exists|j: int| 0 <= j < recipients.len() && #[trigger] recipients[j]@ == user
}

/// The positions, in order, of the notifications whose recipients name `user`.
pub open spec fn notifications_for_spec(lists: Seq<Vec<String>>, user: Seq<char>) -> Seq<int>
    decreases lists.len(),
{
    if lists.len() == 0 {
        Seq::empty()
    } else {
        let n = lists.len() - 1;
        let front = notifications_for_spec(lists.take(n), user);
        if names_user(lists[n]@, user) {
            front.push(n)
        } else {
            front
        }
    }
}

/// Every position picked for `user` is that of a notification with `user`
/// among its recipients.
pub proof fn lemma_notifications_for_sound(lists: Seq<Vec<String>>, user: Seq<char>, j: int)
    requires
        0 <= j < notifications_for_spec(lists, user).len(),
    ensures
        0 <= notifications_for_spec(lists, user)[j] < lists.len(),
        exists|k: int|
            0 <= k < lists[notifications_for_spec(lists, user)[j]]@.len()
                && #[trigger] lists[notifications_for_spec(lists, user)[j]]@[k]@ == user,
    decreases lists.len(),
{
    let n = lists.len() - 1;
    let front = notifications_for_spec(lists.take(n), user);
    if j < front.len() {
        lemma_notifications_for_sound(lists.take(n), user, j);
        assert(lists.take(n)[front[j]] == lists[front[j]]);
    } else {
        let k = choose|k: int| 0 <= k < lists[n]@.len() && #[trigger] lists[n]@[k]@ == user;
        assert(lists[n]@[k]@ == user);
    }
}

/// Every notification with `user` among its recipients (at any place in the
/// list) is picked.
pub proof fn lemma_notifications_for_complete(
    lists: Seq<Vec<String>>,
    user: Seq<char>,
    i: int,
    k: int,
)
    requires
        0 <= i < lists.len(),
        0 <= k < lists[i]@.len(),
        lists[i]@[k]@ == user,
    ensures
        exists|j: int|
            0 <= j < notifications_for_spec(lists, user).len() && #[trigger] notifications_for_spec(
                lists,
                user,
            )[j] == i,
    decreases lists.len(),
{
    let n = lists.len() - 1;
    let front = notifications_for_spec(lists.take(n), user);
    if i == n {
        assert(names_user(lists[n]@, user));
        assert(notifications_for_spec(lists, user)[front.len() as int] == i);
    } else {
        assert(lists.take(n)[i] == lists[i]);
        lemma_notifications_for_complete(lists.take(n), user, i, k);
        let j = choose|j: int| 0 <= j < front.len() && #[trigger] front[j] == i;
        assert(notifications_for_spec(lists, user)[j] == i);
    }
}

/// The picked positions rise.
pub proof fn lemma_notifications_for_increasing(
    lists: Seq<Vec<String>>,
    user: Seq<char>,
    j1: int,
    j2: int,
)
    requires
        0 <= j1 < j2 < notifications_for_spec(lists, user).len(),
    ensures
        notifications_for_spec(lists, user)[j1] < notifications_for_spec(lists, user)[j2],
    decreases lists.len(),
{
    let n = lists.len() - 1;
    let front = notifications_for_spec(lists.take(n), user);
    if j2 < front.len() {
        lemma_notifications_for_increasing(lists.take(n), user, j1, j2);
    } else {
        lemma_notifications_for_sound(lists.take(n), user, j1);
    }
}

/// Whether `user` is among `recipients`.
fn is_recipient(recipients: &Vec<String>, user: &str) -> (res: bool)
    ensures
        res == names_user(recipients@, user@),
{
    let mut j: usize = 0;
    while j < recipients.len()
        invariant
            j <= recipients@.len(),
            forall|k: int| 0 <= k < j ==> #[trigger] recipients@[k]@ != user@,
        decreases recipients@.len() - j,
    {
        if input_is(recipients[j].as_str(), user) {
            return true;
        }
        j = j + 1;
    }
    false
}

/// The notifications to show `user`: the positions, in order, of those whose
/// list of recipients (`recipient_lists[i]` for notification `i`) names them.
pub fn notifications_for(recipient_lists: &Vec<Vec<String>>, user: &str) -> (res: Vec<usize>)
    ensures
        res@.len() == notifications_for_spec(recipient_lists@, user@).len(),
        forall|j: int|
            0 <= j < res@.len() ==> #[trigger] res@[j] as int == notifications_for_spec(
                recipient_lists@,
                user@,
            )[j],
        forall|j: int|
            0 <= j < res@.len() ==> (#[trigger] res@[j] as int) < recipient_lists@.len() && exists|
                k: int,
            |
                0 <= k < recipient_lists@[res@[j] as int]@.len()
                    && #[trigger] recipient_lists@[res@[j] as int]@[k]@ == user@,
        forall|i: int, k: int|
            0 <= i < recipient_lists@.len() && 0 <= k < recipient_lists@[i]@.len()
                && #[trigger] recipient_lists@[i]@[k]@ == user@ ==> exists|j: int|
                0 <= j < res@.len() && #[trigger] res@[j] as int == i,
        forall|j1: int, j2: int|
            0 <= j1 < j2 < res@.len() ==> (#[trigger] res@[j1] as int) < (#[trigger] res@[j2] as int),
{
    let mut res: Vec<usize> = Vec::new();
    let mut i: usize = 0;
    while i < recipient_lists.len()
        invariant
            i <= recipient_lists@.len(),
            res@.len() == notifications_for_spec(recipient_lists@.take(i as int), user@).len(),
            forall|j: int|
                0 <= j < res@.len() ==> #[trigger] res@[j] as int == notifications_for_spec(
                    recipient_lists@.take(i as int),
                    user@,
                )[j],
        decreases recipient_lists@.len() - i,
    {
        let ghost lists = recipient_lists@;
        assert(lists.take(i + 1).take(i as int) =~= lists.take(i as int));
        assert(lists.take(i + 1)[i as int] == lists[i as int]);
        if is_recipient(&recipient_lists[i], user) {
            res.push(i);
        }
        i = i + 1;
    }
    assert(recipient_lists@.take(recipient_lists@.len() as int) =~= recipient_lists@);
    proof {
        let lists = recipient_lists@;
        let spec = notifications_for_spec(lists, user@);
        assert forall|j: int| 0 <= j < res@.len() implies (#[trigger] res@[j] as int) < lists.len()
            && exists|k: int|
            0 <= k < lists[res@[j] as int]@.len() && #[trigger] lists[res@[j] as int]@[k]@
                == user@ by {
            lemma_notifications_for_sound(lists, user@, j);
        }
        assert forall|i: int, k: int|
            0 <= i < lists.len() && 0 <= k < lists[i]@.len() && #[trigger] lists[i]@[k]@
                == user@ implies exists|j: int| 0 <= j < res@.len() && #[trigger] res@[j] as int == i by {
            lemma_notifications_for_complete(lists, user@, i, k);
            let j = choose|j: int| 0 <= j < spec.len() && #[trigger] spec[j] == i;
            assert(res@[j] as int == i);
        }
        assert forall|j1: int, j2: int| 0 <= j1 < j2 < res@.len() implies (#[trigger] res@[j1] as int)
            < (#[trigger] res@[j2] as int) by {
            lemma_notifications_for_increasing(lists, user@, j1, j2);
        }
    }
    res
}

/// `UPDATE {notification_id} SET recipients -= {auth_id};`: removes the user
/// from the recipients of a notification they have seen.
pub fn remove_recipient_query(notification_id: &str, auth_id: &str) -> (res: String)
    ensures
        res@ == "UPDATE "@ + notification_id@ + " SET recipients -= "@ + auth_id@ + ";"@,
{
    let mut q = String::from_str("UPDATE ");
    q.append(notification_id);
    q.append(" SET recipients -= ");
    q.append(auth_id);
    q.append(";");
    q
}

} // verus!
