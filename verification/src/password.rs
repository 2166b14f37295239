use vstd::prelude::*;

use rand::Rng;

use crate::model::str_eq;

verus! {

/// Rejection of a master password that is too short.
#[derive(Debug, PartialEq, Eq)]
pub enum PasswordError {
    TooShort,
}

/// The character set used when the caller picks none: letters, digits and a
/// few special characters.
pub open spec fn spec_default_charset() -> Seq<char> {
    "ABCDEFGHIJKLMNOPQRSTUVWXYZabcdefghijklmnopqrstuvwxyz0123456789!@#$%^&*?"@
}

pub proof fn lemma_default_charset_nonempty()
    ensures
        spec_default_charset().len() == 71,
{
    reveal_strlit("ABCDEFGHIJKLMNOPQRSTUVWXYZabcdefghijklmnopqrstuvwxyz0123456789!@#$%^&*?");
}

/// The default character set, as a string.
pub fn default_charset() -> (r: &'static str)
    ensures
        r@ == spec_default_charset(),
{
    "ABCDEFGHIJKLMNOPQRSTUVWXYZabcdefghijklmnopqrstuvwxyz0123456789!@#$%^&*?"
}

/// How a generated password is shaped: an explicit length with an explicit
/// character set, an explicit length over the default set, or both defaulted.
pub enum PassOptions<'a> {
    LengthCharset(usize, &'a str),
    Length(usize),
    Default,
}

impl<'a> PassOptions<'a> {
    /// The password length this option selects.
    pub open spec fn spec_length(&self) -> int {
        match self {
            PassOptions::LengthCharset(l, _) => *l as int,
            PassOptions::Length(l) => *l as int,
            PassOptions::Default => 20,
        }
    }

    /// The character set this option selects.
    pub open spec fn spec_charset(&self) -> Seq<char> {
        match self {
            PassOptions::LengthCharset(_, c) => c@,
            PassOptions::Length(_) => spec_default_charset(),
            PassOptions::Default => spec_default_charset(),
        }
    }

    fn length_and_charset(&self) -> (r: (usize, &'a str))
        ensures
            r.0 as int == self.spec_length(),
            r.1@ == self.spec_charset(),
    {
        match self {
            PassOptions::LengthCharset(l, c) => (*l, *c),
            PassOptions::Length(l) => (*l, default_charset()),
            PassOptions::Default => (20, default_charset()),
        }
    }
}

/// Relies on rand's `Rng::random_range` over `0..bound`: a value below the
/// bound, drawn from the thread's generator; nothing more can be promised of
/// a random number.
#[verifier::external_body]
fn random_below(bound: usize) -> (r: usize)
    requires
        bound > 0,
    ensures
        r < bound,
{
    rand::rng().random_range(0..bound)
}

/// Relies on `String::push`: appends exactly the one character.
#[verifier::external_body]
fn push_char(s: &mut String, c: char)
    ensures
        final(s)@ == old(s)@.push(c),
{
    s.push(c);
}

/// Draws the selected number of random characters, each from the selected
/// character set.
pub fn generate_random_password(pass_options: PassOptions) -> (r: String)
    requires
        pass_options.spec_charset().len() > 0,
    ensures
        r@.len() == pass_options.spec_length(),
        forall|i: int| 0 <= i < r@.len() ==> pass_options.spec_charset().contains(#[trigger] r@[i]),
{
    let (length, charset) = pass_options.length_and_charset();
    let n = charset.unicode_len();
    let mut out = String::new();
    let mut i: usize = 0;
    while i < length
        invariant
            n == charset@.len(),
            n > 0,
            charset@ == pass_options.spec_charset(),
            out@.len() == i,
            i <= length,
            forall|j: int| 0 <= j < i ==> pass_options.spec_charset().contains(#[trigger] out@[j]),
        decreases length - i,
    {
        let idx = random_below(n);
        let c = charset.get_char(idx);
        proof {
            assert(charset@.contains(charset@[idx as int]));
        }
        push_char(&mut out, c);
        i = i + 1;
    }
    out
}

/// The aligned form of a password, by byte length of its UTF-8 encoding:
/// padded with `'*'` up to 16 bytes, returned unchanged at exactly 16 bytes,
/// and cut to the characters of its first 16 bytes when longer.
pub open spec fn spec_align(p: Seq<char>) -> Seq<char> {
    let b = vstd::utf8::encode_utf8(p);
    if b.len() < 16 {
        p + Seq::new((16 - b.len()) as nat, |i: int| '*')
    } else if b.len() > 16 {
        vstd::utf8::decode_utf8(b.subrange(0, 16))
    } else {
        p
    }
}

/// Pads a short password with `'*'` up to 16 bytes and truncates a long one
/// to its first 16 bytes; a 16-byte one comes back unchanged.  A password
/// whose 16th byte falls inside a multi-byte character is excluded: cutting
/// it at that byte would not leave text.
pub fn align_password(password: &str) -> (r: String)
    requires
        vstd::utf8::encode_utf8(password@).len() <= 16 || vstd::utf8::is_char_boundary(
            vstd::utf8::encode_utf8(password@),
            16,
        ),
    ensures
        r@ == spec_align(password@),
{
    broadcast use vstd::utf8::encode_utf8_valid_utf8;

    let bs = password.as_bytes_vec();
    let n = bs.len();
    proof {
        assert(bs@ == vstd::utf8::encode_utf8(password@));
    }
    if n < 16 {
        let mut out = password.to_owned();
        let mut i: usize = n;
        while i < 16
            invariant
                n == vstd::utf8::encode_utf8(password@).len(),
                n <= i <= 16,
                out@.len() == password@.len() + (i - n),
                out@.subrange(0, password@.len() as int) == password@,
                forall|j: int| password@.len() <= j < out@.len() ==> out@[j] == '*',
            decreases 16 - i,
        {
            push_char(&mut out, '*');
            proof {
                assert(out@.subrange(0, password@.len() as int) =~= password@);
            }
            i = i + 1;
        }
        proof {
            assert(out@ =~= spec_align(password@));
        }
        out
    } else if n > 16 {
        let head = crate::codec::copy_range(&bs, 0, 16);
        proof {
            vstd::utf8::valid_utf8_split(bs@, 16);
            assert(vstd::utf8::valid_utf8(head@));
        }
        match crate::codec::bytes_to_string(head) {
            Some(s) => s,
            None => vstd::pervasive::unreached(),
        }
    } else {
        let r = password.to_owned();
        proof {
            assert(r@ =~= spec_align(password@));
        }
        r
    }
}

/// Master-password policy and generation helpers.
pub struct Password;

impl Password {
    /// Accepts a master password only if it is longer than five bytes.
    pub fn validate_master_password(password: String) -> (r: Result<String, PasswordError>)
        ensures
            r is Ok <==> vstd::utf8::encode_utf8(password@).len() as usize > 5,
            r is Ok ==> r->Ok_0@ == password@,
            r is Err ==> r->Err_0 == PasswordError::TooShort,
    {
        let n = password.as_str().len();
        if n > 5 {
            Ok(password)
        } else {
            Err(PasswordError::TooShort)
        }
    }

    /// Draws a random password as `generate_random_password` does.
    pub fn generate_random_password(pass_options: PassOptions) -> (r: String)
        requires
            pass_options.spec_charset().len() > 0,
        ensures
            r@.len() == pass_options.spec_length(),
            forall|i: int|
                0 <= i < r@.len() ==> pass_options.spec_charset().contains(#[trigger] r@[i]),
    {
        generate_random_password(pass_options)
    }
}

/// The named character sets a caller can pick from.
pub enum Charset {
    Numeric,
    Alphabetic,
    Capital,
    AlphaNumeric,
    AlphaNumericCapital,
    Default,
}

impl Charset {
    /// The characters of this set.
    pub open spec fn spec_chars(&self) -> Seq<char> {
        match self {
            Charset::Alphabetic => "abcdefghijklmnopqrstuvwxyz"@,
            Charset::Capital => "ABCDEFGHIJKLMNOPQRSTUVWXYZ"@,
            Charset::Numeric => "0123456789"@,
            Charset::AlphaNumeric => "abcdefghijklmnopqrstuvwxyz0123456789"@,
            Charset::AlphaNumericCapital
                => "abcdefghijklmnopqrstuvwxyzABCDEFGHIJKLMNOPQRSTUVWXYZ0123456789"@,
            Charset::Default => spec_default_charset(),
        }
    }

    /// The characters of this set, as a string.
    pub fn chars(&self) -> (r: &'static str)
        ensures
            r@ == self.spec_chars(),
            r@.len() > 0,
    {
        proof {
            reveal_strlit("abcdefghijklmnopqrstuvwxyz");
            reveal_strlit("ABCDEFGHIJKLMNOPQRSTUVWXYZ");
            reveal_strlit("0123456789");
            reveal_strlit("abcdefghijklmnopqrstuvwxyz0123456789");
            reveal_strlit("abcdefghijklmnopqrstuvwxyzABCDEFGHIJKLMNOPQRSTUVWXYZ0123456789");
            lemma_default_charset_nonempty();
        }
        match self {
            Charset::Alphabetic => "abcdefghijklmnopqrstuvwxyz",
            Charset::Capital => "ABCDEFGHIJKLMNOPQRSTUVWXYZ",
            Charset::Numeric => "0123456789",
            Charset::AlphaNumeric => "abcdefghijklmnopqrstuvwxyz0123456789",
            Charset::AlphaNumericCapital
                => "abcdefghijklmnopqrstuvwxyzABCDEFGHIJKLMNOPQRSTUVWXYZ0123456789",
            Charset::Default => default_charset(),
        }
    }

    /// The character set a one- or two-letter code names; anything unknown
    /// selects the default set.
    pub open spec fn spec_from_code(code: Seq<char>) -> Charset {
        if code == "a"@ {
            Charset::Alphabetic
        } else if code == "c"@ {
            Charset::Capital
        } else if code == "n"@ {
            Charset::Numeric
        } else if code == "an"@ {
            Charset::AlphaNumeric
        } else if code == "anc"@ {
            Charset::AlphaNumericCapital
        } else {
            Charset::Default
        }
    }

    /// Maps a code such as `"a"` or `"anc"` to its character set.
    pub fn from_code(code: &str) -> (r: Charset)
        ensures
            r == Charset::spec_from_code(code@),
    {
        if str_eq(code, "a") {
            Charset::Alphabetic
        } else if str_eq(code, "c") {
            Charset::Capital
        } else if str_eq(code, "n") {
            Charset::Numeric
        } else if str_eq(code, "an") {
            Charset::AlphaNumeric
        } else if str_eq(code, "anc") {
            Charset::AlphaNumericCapital
        } else {
            Charset::Default
        }
    }

    /// Generates a password of the given length: over the set named by the
    /// given code, or over the default set when no code is given.
    pub fn password(length: usize, charset: &Option<String>) -> (r: String)
        ensures
            r@.len() == length,
            match charset {
                Some(code) => forall|i: int|
                    0 <= i < r@.len() ==> Charset::spec_from_code(code@).spec_chars().contains(
                        #[trigger] r@[i],
                    ),
                None => forall|i: int|
                    0 <= i < r@.len() ==> spec_default_charset().contains(#[trigger] r@[i]),
            },
    {
        match charset {
            Some(code) => {
                let cs = Charset::from_code(code.as_str());
                let chars = cs.chars();
                generate_random_password(PassOptions::LengthCharset(length, chars))
            },
            None => {
                proof {
                    lemma_default_charset_nonempty();
                }
                generate_random_password(PassOptions::Length(length))
            },
        }
    }
}

} // verus!
