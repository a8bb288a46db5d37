//! The login settings of an account, and how they map onto the named values
//! of a configuration backend.

use vstd::prelude::*;
use vstd::string::StringExecFns;
use crate::number::{decimal_chars, decimal_text, hex_text, lower_hex};

verus! {

/// The settings with which an account logs in to its mail and send servers.
#[derive(Debug)]
pub struct LoginParam {
    pub addr: String,
    pub mail_server: String,
    pub mail_user: String,
    pub mail_pw: String,
    pub mail_port: i32,
    pub send_server: String,
    pub send_user: String,
    pub send_pw: String,
    pub send_port: i32,
    pub server_flags: i32,
}

/// The settings as a configuration backend holds them: `None` where it has
/// no value under the field's key.
#[derive(Debug)]
pub struct StoredLogin {
    pub addr: Option<String>,
    pub mail_server: Option<String>,
    pub mail_port: Option<i32>,
    pub mail_user: Option<String>,
    pub mail_pw: Option<String>,
    pub send_server: Option<String>,
    pub send_port: Option<i32>,
    pub send_user: Option<String>,
    pub send_pw: Option<String>,
    pub server_flags: Option<i32>,
}

/// The fields of the settings, in the order in which they are saved.
#[derive(Debug, Clone, Copy, PartialEq, Eq)]
pub enum LoginField {
    Addr,
    MailServer,
    MailPort,
    MailUser,
    MailPw,
    SendServer,
    SendPort,
    SendUser,
    SendPw,
    ServerFlags,
}

/// A value to store in a configuration backend.
#[derive(Debug)]
pub enum ConfigValue {
    Text(String),
    Number(i32),
}

/// A key of a configuration backend with the value to store under it.
#[derive(Debug)]
pub struct ConfigEntry {
    pub key: String,
    pub value: ConfigValue,
}

/// The name of a field; its key is the name behind the caller's prefix.
pub open spec fn field_name(field: LoginField) -> Seq<char> {
    match field {
        LoginField::Addr => "addr"@,
        LoginField::MailServer => "mail_server"@,
        LoginField::MailPort => "mail_port"@,
        LoginField::MailUser => "mail_user"@,
        LoginField::MailPw => "mail_pw"@,
        LoginField::SendServer => "send_server"@,
        LoginField::SendPort => "send_port"@,
        LoginField::SendUser => "send_user"@,
        LoginField::SendPw => "send_pw"@,
        LoginField::ServerFlags => "server_flags"@,
    }
}

/// The field that is saved at position `i`.
pub open spec fn saved_field(i: int) -> LoginField {
    if i == 0 {
        LoginField::Addr
    } else if i == 1 {
        LoginField::MailServer
    } else if i == 2 {
        LoginField::MailPort
    } else if i == 3 {
        LoginField::MailUser
    } else if i == 4 {
        LoginField::MailPw
    } else if i == 5 {
        LoginField::SendServer
    } else if i == 6 {
        LoginField::SendPort
    } else if i == 7 {
        LoginField::SendUser
    } else if i == 8 {
        LoginField::SendPw
    } else {
        LoginField::ServerFlags
    }
}

/// `value` is what `login` holds in `field`.
pub open spec fn stored_as(login: LoginParam, field: LoginField, value: ConfigValue) -> bool {
    match field {
        LoginField::Addr => value matches ConfigValue::Text(s) && s@ == login.addr@,
        LoginField::MailServer => value matches ConfigValue::Text(s) && s@ == login.mail_server@,
        LoginField::MailPort => value == ConfigValue::Number(login.mail_port),
        LoginField::MailUser => value matches ConfigValue::Text(s) && s@ == login.mail_user@,
        LoginField::MailPw => value matches ConfigValue::Text(s) && s@ == login.mail_pw@,
        LoginField::SendServer => value matches ConfigValue::Text(s) && s@ == login.send_server@,
        LoginField::SendPort => value == ConfigValue::Number(login.send_port),
        LoginField::SendUser => value matches ConfigValue::Text(s) && s@ == login.send_user@,
        LoginField::SendPw => value matches ConfigValue::Text(s) && s@ == login.send_pw@,
        LoginField::ServerFlags => value == ConfigValue::Number(login.server_flags),
    }
}

/// The characters that trimming a string removes from its ends: those with
/// the Unicode property White_Space.
pub open spec fn is_whitespace(c: char) -> bool {
    let x = c as u32;
    (9 <= x && x <= 13) || x == 0x20 || x == 0x85 || x == 0xA0 || x == 0x1680 || (0x2000 <= x && x
        <= 0x200A) || x == 0x2028 || x == 0x2029 || x == 0x202F || x == 0x205F || x == 0x3000
}

/// `r` is `s` without the whitespace at its two ends.
pub open spec fn is_trim_of(r: Seq<char>, s: Seq<char>) -> bool {
    exists|i: int, j: int|
        {
            &&& 0 <= i <= j <= s.len()
            &&& r == #[trigger] s.subrange(i, j)
            &&& forall|k: int| 0 <= k < i ==> is_whitespace(#[trigger] s[k])
            &&& forall|k: int| j <= k < s.len() ==> is_whitespace(#[trigger] s[k])
            &&& i < j ==> !is_whitespace(s[i]) && !is_whitespace(s[j - 1])
        }
}

/// The text of a stored value, empty where there is none.
pub open spec fn text_or_empty(v: Option<String>) -> Seq<char> {
    match v {
        Some(s) => s@,
        None => Seq::empty(),
    }
}

/// The number of a stored value, 0 where there is none.
pub open spec fn number_or_zero(v: Option<i32>) -> i32 {
    match v {
        Some(n) => n,
        None => 0,
    }
}

/// The text for one set bit of the server flags: the flag's name and a
/// space, or the bit in hexadecimal where it has no name.
pub open spec fn flag_text(mask: i32) -> Seq<char> {
    if mask == 0x2 {
        "OAUTH2 "@
    } else if mask == 0x4 {
        "AUTH_NORMAL "@
    } else if mask == 0x100 {
        "IMAP_STARTTLS "@
    } else if mask == 0x200 {
        "IMAP_SSL "@
    } else if mask == 0x400 {
        "IMAP_PLAIN "@
    } else if mask == 0x10000 {
        "SMTP_STARTTLS "@
    } else if mask == 0x20000 {
        "SMTP_SSL "@
    } else if mask == 0x40000 {
        "SMTP_PLAIN "@
    } else {
        lower_hex(mask as int)
    }
}

/// The bit of the server flags at position `bit`.
pub open spec fn flag_mask(bit: u32) -> i32 {
    1i32 << bit
}

/// The texts of the bits of `flags` that are set below position `n`, lowest
/// bit first.
pub open spec fn flags_below(flags: i32, n: nat) -> Seq<char>
    decreases n,
{
    if n == 0 {
        Seq::empty()
    } else {
        let mask = flag_mask((n - 1) as u32);
        flags_below(flags, (n - 1) as nat) + if flags & mask != 0 {
            flag_text(mask)
        } else {
            Seq::empty()
        }
    }
}

/// The server flags in words: the text of each of the 31 low bits that is
/// set, or `0` where that is empty.
pub open spec fn readable_flags(flags: i32) -> Seq<char> {
    let words = flags_below(flags, 31);
    if words.len() == 0 {
        "0"@
    } else {
        words
    }
}

/// `s`, or `unset` where it is empty.
pub open spec fn unset_text(s: Seq<char>) -> Seq<char> {
    if s.len() == 0 {
        "unset"@
    } else {
        s
    }
}

/// A password is never shown: `***` where there is one, `0` where not.
pub open spec fn password_text(s: Seq<char>) -> Seq<char> {
    if s.len() == 0 {
        "0"@
    } else {
        "***"@
    }
}

/// The settings on one line, with the passwords masked.
pub open spec fn display_text(p: LoginParam) -> Seq<char> {
    unset_text(p.addr@) + " "@ + unset_text(p.mail_user@) + ":"@ + password_text(p.mail_pw@) + ":"@
        + unset_text(p.mail_server@) + ":"@ + decimal_chars(p.mail_port as int) + " "@
        + unset_text(p.send_user@) + ":"@ + password_text(p.send_pw@) + ":"@ + unset_text(
        p.send_server@,
    ) + ":"@ + decimal_chars(p.send_port as int) + " "@ + readable_flags(p.server_flags)
}

/// Calls `str::trim`, which returns the slice of `s` that is left when the
/// whitespace at both ends is taken away.
#[verifier::external_body]
fn trim_str(s: &str) -> (r: &str)
    ensures
        is_trim_of(r@, s@),
{
    s.trim()
}

fn text_or_default(v: Option<String>) -> (r: String)
    ensures
        r@ == text_or_empty(v),
{
    match v {
        Some(s) => s,
        None => String::new(),
    }
}

fn number_or_default(v: Option<i32>) -> (r: i32)
    ensures
        r == number_or_zero(v),
{
    match v {
        Some(n) => n,
        None => 0,
    }
}

/// The key under which `field` is stored: its name behind `prefix`.
pub fn config_key(prefix: &str, field: LoginField) -> (r: String)
    ensures
        r@ == prefix@ + field_name(field),
{
    let name: &str = match field {
        LoginField::Addr => "addr",
        LoginField::MailServer => "mail_server",
        LoginField::MailPort => "mail_port",
        LoginField::MailUser => "mail_user",
        LoginField::MailPw => "mail_pw",
        LoginField::SendServer => "send_server",
        LoginField::SendPort => "send_port",
        LoginField::SendUser => "send_user",
        LoginField::SendPw => "send_pw",
        LoginField::ServerFlags => "server_flags",
    };
    let mut key: String = String::from_str(prefix);
    key.append(name);
    key
}

/// `s` as an owned string, or `unset` where it is empty.
pub fn unset_empty(s: &String) -> (r: String)
    ensures
        r@ == unset_text(s@),
{
    if s.as_str().is_empty() {
        String::from_str("unset")
    } else {
        s.clone()
    }
}

fn password_mask(s: &String) -> (r: &'static str)
    ensures
        r@ == password_text(s@),
{
    if s.as_str().is_empty() {
        "0"
    } else {
        "***"
    }
}

fn flag_word(mask: i32) -> (r: String)
    ensures
        r@ == flag_text(mask),
{
    if mask == 0x2 {
        String::from_str("OAUTH2 ")
    } else if mask == 0x4 {
        String::from_str("AUTH_NORMAL ")
    } else if mask == 0x100 {
        String::from_str("IMAP_STARTTLS ")
    } else if mask == 0x200 {
        String::from_str("IMAP_SSL ")
    } else if mask == 0x400 {
        String::from_str("IMAP_PLAIN ")
    } else if mask == 0x10000 {
        String::from_str("SMTP_STARTTLS ")
    } else if mask == 0x20000 {
        String::from_str("SMTP_SSL ")
    } else if mask == 0x40000 {
        String::from_str("SMTP_PLAIN ")
    } else {
        hex_text(mask)
    }
}

/// The server flags in words, lowest bit first: each known flag by its name
/// and a space, each other bit in hexadecimal, and `0` for no bit at all.
pub fn get_readable_flags(flags: i32) -> (r: String)
    ensures
        r@ == readable_flags(flags),
{
    let mut res: String = String::new();
    let mut bit: u32 = 0;
    while bit < 31
        invariant
            bit <= 31,
            res@ == flags_below(flags, bit as nat),
        decreases 31 - bit,
    {
        let mask: i32 = 1i32 << bit;
        if flags & mask != 0 {
            let word: String = flag_word(mask);
            res.append(word.as_str());
        } else {
            assert(res@ + Seq::<char>::empty() == res@);
        }
        bit += 1;
    }
    if res.as_str().is_empty() {
        res.append("0");
        assert(Seq::<char>::empty() + "0"@ == "0"@);
    }
    res
}

impl LoginParam {
    /// Settings with every text empty and every number 0.
    pub fn new() -> (r: Self)
        ensures
            r.addr@.len() == 0,
            r.mail_server@.len() == 0,
            r.mail_user@.len() == 0,
            r.mail_pw@.len() == 0,
            r.mail_port == 0,
            r.send_server@.len() == 0,
            r.send_user@.len() == 0,
            r.send_pw@.len() == 0,
            r.send_port == 0,
            r.server_flags == 0,
    {
        LoginParam {
            addr: String::new(),
            mail_server: String::new(),
            mail_user: String::new(),
            mail_pw: String::new(),
            mail_port: 0,
            send_server: String::new(),
            send_user: String::new(),
            send_pw: String::new(),
            send_port: 0,
            server_flags: 0,
        }
    }

    /// The settings that the stored values give: a value that is missing
    /// counts as empty text or as 0, and the address loses the whitespace at
    /// its ends.
    pub fn from_database(stored: StoredLogin) -> (r: Self)
        ensures
            is_trim_of(r.addr@, text_or_empty(stored.addr)),
            r.mail_server@ == text_or_empty(stored.mail_server),
            r.mail_port == number_or_zero(stored.mail_port),
            r.mail_user@ == text_or_empty(stored.mail_user),
            r.mail_pw@ == text_or_empty(stored.mail_pw),
            r.send_server@ == text_or_empty(stored.send_server),
            r.send_port == number_or_zero(stored.send_port),
            r.send_user@ == text_or_empty(stored.send_user),
            r.send_pw@ == text_or_empty(stored.send_pw),
            r.server_flags == number_or_zero(stored.server_flags),
    {
        let raw: String = text_or_default(stored.addr);
        let addr: String = String::from_str(trim_str(raw.as_str()));
        LoginParam {
            addr,
            mail_server: text_or_default(stored.mail_server),
            mail_user: text_or_default(stored.mail_user),
            mail_pw: text_or_default(stored.mail_pw),
            mail_port: number_or_default(stored.mail_port),
            send_server: text_or_default(stored.send_server),
            send_user: text_or_default(stored.send_user),
            send_pw: text_or_default(stored.send_pw),
            send_port: number_or_default(stored.send_port),
            server_flags: number_or_default(stored.server_flags),
        }
    }

    /// The account's address.
    pub fn addr_str(&self) -> (r: &str)
        ensures
            r@ == self.addr@,
    {
        self.addr.as_str()
    }

    /// The ten entries that saving the settings under `prefix` writes, in the
    /// order in which they are written: each field under its key.
    pub fn save_to_database(&self, prefix: &str) -> (r: Vec<ConfigEntry>)
        ensures
            r@.len() == 10,
            forall|i: int|
                0 <= i < 10 ==> (#[trigger] r@[i]).key@ == prefix@ + field_name(saved_field(i))
                    && stored_as(*self, saved_field(i), r@[i].value),
    {
        let mut out: Vec<ConfigEntry> = Vec::new();
        out.push(text_entry(prefix, LoginField::Addr, &self.addr));
        out.push(text_entry(prefix, LoginField::MailServer, &self.mail_server));
        out.push(number_entry(prefix, LoginField::MailPort, self.mail_port));
        out.push(text_entry(prefix, LoginField::MailUser, &self.mail_user));
        out.push(text_entry(prefix, LoginField::MailPw, &self.mail_pw));
        out.push(text_entry(prefix, LoginField::SendServer, &self.send_server));
        out.push(number_entry(prefix, LoginField::SendPort, self.send_port));
        out.push(text_entry(prefix, LoginField::SendUser, &self.send_user));
        out.push(text_entry(prefix, LoginField::SendPw, &self.send_pw));
        out.push(number_entry(prefix, LoginField::ServerFlags, self.server_flags));
        out
    }

    /// The settings on one line, for a log: empty texts as `unset`, the
    /// passwords masked, the flags in words.
    pub fn to_string(&self) -> (r: String)
        ensures
            r@ == display_text(*self),
    {
        let mut out: String = unset_empty(&self.addr);
        out.append(" ");
        out.append(unset_empty(&self.mail_user).as_str());
        out.append(":");
        out.append(password_mask(&self.mail_pw));
        out.append(":");
        out.append(unset_empty(&self.mail_server).as_str());
        out.append(":");
        out.append(decimal_text(self.mail_port).as_str());
        out.append(" ");
        out.append(unset_empty(&self.send_user).as_str());
        out.append(":");
        out.append(password_mask(&self.send_pw));
        out.append(":");
        out.append(unset_empty(&self.send_server).as_str());
        out.append(":");
        out.append(decimal_text(self.send_port).as_str());
        out.append(" ");
        out.append(get_readable_flags(self.server_flags).as_str());
        out
    }
}

impl Default for LoginParam {
    fn default() -> (r: Self)
        ensures
            r.addr@.len() == 0,
            r.mail_server@.len() == 0,
            r.mail_user@.len() == 0,
            r.mail_pw@.len() == 0,
            r.mail_port == 0,
            r.send_server@.len() == 0,
            r.send_user@.len() == 0,
            r.send_pw@.len() == 0,
            r.send_port == 0,
            r.server_flags == 0,
    {
        LoginParam::new()
    }
}

fn text_entry(prefix: &str, field: LoginField, text: &String) -> (r: ConfigEntry)
    ensures
        r.key@ == prefix@ + field_name(field),
        r.value matches ConfigValue::Text(s) && s@ == text@,
{
    ConfigEntry { key: config_key(prefix, field), value: ConfigValue::Text(text.clone()) }
}

fn number_entry(prefix: &str, field: LoginField, number: i32) -> (r: ConfigEntry)
    ensures
        r.key@ == prefix@ + field_name(field),
        r.value == ConfigValue::Number(number),
{
    ConfigEntry { key: config_key(prefix, field), value: ConfigValue::Number(number) }
}

} // verus!
