use vstd::prelude::*;

verus! {

/// One named secret record held by the store.
#[derive(Debug, PartialEq, Eq)]
pub struct Entry {
    pub name: String,
    pub password: String,
    pub info: String,
}

/// Mathematical model of an `Entry`: its three text fields as character sequences.
pub struct EntryView {
    pub name: Seq<char>,
    pub password: Seq<char>,
    pub info: Seq<char>,
}

impl View for Entry {
    type V = EntryView;

    open spec fn view(&self) -> EntryView {
        EntryView { name: self.name@, password: self.password@, info: self.info@ }
    }
}

impl DeepView for Entry {
    type V = EntryView;

    open spec fn deep_view(&self) -> EntryView {
        self.view()
    }
}

impl Entry {
    /// Builds an entry: with no password given, a 20-character random one
    /// over the default character set; with no info given, an empty string.
    pub fn new(name: &str, password: &Option<String>, info: &Option<String>) -> (r: Entry)
        ensures
            r@.name == name@,
            match password {
                Some(p) => r@.password == p@,
                None => r@.password.len() == 20 && forall|i: int|
                    0 <= i < r@.password.len()
                        ==> crate::password::spec_default_charset().contains(
                        #[trigger] r@.password[i],
                    ),
            },
            match info {
                Some(s) => r@.info == s@,
                None => r@.info.len() == 0,
            },
    {
        let pw = match password {
            Some(p) => p.clone(),
            None => {
                proof {
                    crate::password::lemma_default_charset_nonempty();
                }
                crate::password::Password::generate_random_password(
                    crate::password::PassOptions::Default,
                )
            },
        };
        let inf = match info {
            Some(s) => s.clone(),
            None => String::new(),
        };
        Entry { name: name.to_owned(), password: pw, info: inf }
    }

    /// Replaces the stored password.
    pub fn set_password(&mut self, password: String)
        ensures
            final(self)@.name == old(self)@.name,
            final(self)@.password == password@,
            final(self)@.info == old(self)@.info,
    {
        self.password = password;
    }

    /// Replaces the stored free-form information.
    pub fn set_info(&mut self, info: String)
        ensures
            final(self)@.name == old(self)@.name,
            final(self)@.password == old(self)@.password,
            final(self)@.info == info@,
    {
        self.info = info;
    }
}

/// Lexicographic order on names, by Unicode scalar value.
/// This matches the byte order of the UTF-8 encodings of the two strings.
pub open spec fn lex_le(a: Seq<char>, b: Seq<char>) -> bool
    decreases a.len(),
{
    if a.len() == 0 {
        true
    } else if b.len() == 0 {
        false
    } else if (a[0] as u32) < (b[0] as u32) {
        true
    } else if (a[0] as u32) > (b[0] as u32) {
        false
    } else {
        lex_le(a.drop_first(), b.drop_first())
    }
}

/// `lex_le` is total: any two names are comparable.
pub proof fn lemma_lex_le_total(a: Seq<char>, b: Seq<char>)
    ensures
        lex_le(a, b) || lex_le(b, a),
    decreases a.len(),
{
    if a.len() == 0 || b.len() == 0 {
    } else if (a[0] as u32) == (b[0] as u32) {
        lemma_lex_le_total(a.drop_first(), b.drop_first());
    }
}

/// `lex_le` is antisymmetric: mutually ordered names are equal.
pub proof fn lemma_lex_le_antisym(a: Seq<char>, b: Seq<char>)
    requires
        lex_le(a, b),
        lex_le(b, a),
    ensures
        a == b,
    decreases a.len(),
{
    if a.len() == 0 {
        assert(b.len() == 0);
        assert(a =~= b);
    } else {
        assert((a[0] as u32) == (b[0] as u32));
        vstd::utf8::char_u32_cast(a[0], a[0] as u32);
        vstd::utf8::char_u32_cast(b[0], b[0] as u32);
        lemma_lex_le_antisym(a.drop_first(), b.drop_first());
        assert(a[0] == b[0]);
        assert(a.drop_first().len() == b.drop_first().len());
        assert forall|i: int| 0 <= i < a.len() implies a[i] == b[i] by {
            if i > 0 {
                assert(a.drop_first()[i - 1] == b.drop_first()[i - 1]);
            }
        }
        assert(a =~= b);
    }
}

/// `lex_le` is transitive.
pub proof fn lemma_lex_le_trans(a: Seq<char>, b: Seq<char>, c: Seq<char>)
    requires
        lex_le(a, b),
        lex_le(b, c),
    ensures
        lex_le(a, c),
    decreases a.len(),
{
    if a.len() == 0 || b.len() == 0 || c.len() == 0 {
    } else if (a[0] as u32) == (b[0] as u32) && (b[0] as u32) == (c[0] as u32) {
        lemma_lex_le_trans(a.drop_first(), b.drop_first(), c.drop_first());
    }
}

/// Exact, case-sensitive equality of two names.
pub fn str_eq(a: &str, b: &str) -> (r: bool)
    ensures
        r == (a@ == b@),
{
    let la = a.unicode_len();
    let lb = b.unicode_len();
    if la != lb {
        proof {
            assert(a@.len() != b@.len());
        }
        return false;
    }
    let mut i: usize = 0;
    while i < la
        invariant
            la == a@.len(),
            la == b@.len(),
            i <= la,
            forall|j: int| 0 <= j < i ==> a@[j] == b@[j],
        decreases la - i,
    {
        let ca = a.get_char(i);
        let cb = b.get_char(i);
        if ca != cb {
            return false;
        }
        i = i + 1;
    }
    proof {
        assert(a@ =~= b@);
    }
    true
}

/// Compares two names in the order given by `lex_le`.
pub fn name_le(a: &str, b: &str) -> (r: bool)
    ensures
        r == lex_le(a@, b@),
{
    let la = a.unicode_len();
    let lb = b.unicode_len();
    let mut i: usize = 0;
    proof {
        assert(a@.skip(0) =~= a@);
        assert(b@.skip(0) =~= b@);
    }
    loop
        invariant
            la == a@.len(),
            lb == b@.len(),
            i <= la,
            i <= lb,
            lex_le(a@, b@) == lex_le(a@.skip(i as int), b@.skip(i as int)),
        decreases la - i,
    {
        if i >= la {
            return true;
        }
        if i >= lb {
            return false;
        }
        let ca = a.get_char(i);
        let cb = b.get_char(i);
        proof {
            assert(a@.skip(i as int)[0] == a@[i as int]);
            assert(b@.skip(i as int)[0] == b@[i as int]);
        }
        if (ca as u32) < (cb as u32) {
            return true;
        }
        if (ca as u32) > (cb as u32) {
            return false;
        }
        proof {
            assert(a@.skip(i as int).drop_first() =~= a@.skip(i + 1));
            assert(b@.skip(i as int).drop_first() =~= b@.skip(i + 1));
        }
        i = i + 1;
    }
}

} // verus!
