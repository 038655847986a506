//! The identity of a package and the label derived from it.

use vstd::prelude::*;
use vstd::string::StringExecFns;

verus! {

/// The character of one decimal digit.
pub open spec fn digit_char(d: nat) -> char {
    if d == 0 {
        '0'
    } else if d == 1 {
        '1'
    } else if d == 2 {
        '2'
    } else if d == 3 {
        '3'
    } else if d == 4 {
        '4'
    } else if d == 5 {
        '5'
    } else if d == 6 {
        '6'
    } else if d == 7 {
        '7'
    } else if d == 8 {
        '8'
    } else {
        '9'
    }
}

/// A number written in decimal, without leading zeros.
pub open spec fn decimal(n: nat) -> Seq<char>
    decreases n,
{
    if n < 10 {
        seq![digit_char(n)]
    } else {
        decimal(n / 10).push(digit_char(n % 10))
    }
}

/// The epoch together with its separating colon, or nothing when the epoch
/// text is empty.
pub open spec fn epoch_part(epoch: Seq<char>) -> Seq<char> {
    if epoch.len() > 0 {
        epoch + seq![':']
    } else {
        Seq::empty()
    }
}

/// The text of a NEVRA: `name-epoch:version-release.arch`, where `epoch:` is
/// left out when the epoch text is empty.
pub open spec fn nevra_text(
    name: Seq<char>,
    epoch: Seq<char>,
    version: Seq<char>,
    release: Seq<char>,
    arch: Seq<char>,
) -> Seq<char> {
    name + seq!['-'] + epoch_part(epoch) + version + seq!['-'] + release + seq!['.'] + arch
}

/// What names a package: its name, epoch, version, release and architecture.
#[derive(Debug)]
pub struct PackageIdentity {
    pub name: String,
    pub epoch: u32,
    pub version: String,
    pub release: String,
    pub arch: String,
}

impl Clone for PackageIdentity {
    fn clone(&self) -> (copy: PackageIdentity)
        ensures
            copy == *self,
    {
        PackageIdentity {
            name: self.name.clone(),
            epoch: self.epoch,
            version: self.version.clone(),
            release: self.release.clone(),
            arch: self.arch.clone(),
        }
    }
}

impl PackageIdentity {
    /// The label of the package: its NEVRA with the epoch in decimal.
    pub open spec fn label(self) -> Seq<char> {
        nevra_text(
            self.name@,
            decimal(self.epoch as nat),
            self.version@,
            self.release@,
            self.arch@,
        )
    }

    /// Whether two identities agree in every field.
    pub open spec fn same_fields(self, other: PackageIdentity) -> bool {
        &&& self.name@ == other.name@
        &&& self.epoch == other.epoch
        &&& self.version@ == other.version@
        &&& self.release@ == other.release@
        &&& self.arch@ == other.arch@
    }

    /// Whether two identities differ in one field and agree in the four
    /// others.
    pub open spec fn differs_in_one_field(self, other: PackageIdentity) -> bool {
        let name = self.name@ == other.name@;
        let epoch = self.epoch == other.epoch;
        let version = self.version@ == other.version@;
        let release = self.release@ == other.release@;
        let arch = self.arch@ == other.arch@;
        ||| (!name && epoch && version && release && arch)
        ||| (name && !epoch && version && release && arch)
        ||| (name && epoch && !version && release && arch)
        ||| (name && epoch && version && !release && arch)
        ||| (name && epoch && version && release && !arch)
    }

    /// Puts an identity together; a package without an epoch has epoch 0.
    pub fn new(
        name: String,
        epoch: Option<u32>,
        version: String,
        release: String,
        arch: String,
    ) -> (identity: PackageIdentity)
        ensures
            identity.name == name,
            identity.epoch == (match epoch {
                Some(e) => e,
                None => 0,
            }),
            identity.version == version,
            identity.release == release,
            identity.arch == arch,
    {
        let epoch = match epoch {
            Some(e) => e,
            None => 0,
        };
        PackageIdentity { name, epoch, version, release, arch }
    }

    /// Formats the label of the package.
    pub fn nevra(&self) -> (label: String)
        ensures
            label@ == self.label(),
    {
        let epoch = decimal_string(self.epoch);
        format_nevra(
            self.name.as_str(),
            epoch.as_str(),
            self.version.as_str(),
            self.release.as_str(),
            self.arch.as_str(),
        )
    }
}

/// Formats the five parts through `rpm::Nevra::new` and its `Display` impl.
///
/// Trusted: `Display for Nevra` writes the name, a hyphen, the EVR, a dot and
/// the architecture; `Display for Evr` writes the epoch and a colon only when
/// the epoch is not empty, then the version, a hyphen and the release.
#[verifier::external_body]
fn format_nevra(name: &str, epoch: &str, version: &str, release: &str, arch: &str) -> (label:
    String)
    ensures
        label@ == nevra_text(name@, epoch@, version@, release@, arch@),
{
    rpm::Nevra::new(name, epoch, version, release, arch).to_string()
}

fn digit_text(d: u32) -> (text: &'static str)
    requires
        d < 10,
    ensures
        text@ == seq![digit_char(d as nat)],
{
    proof {
        reveal_strlit("0");
        reveal_strlit("1");
        reveal_strlit("2");
        reveal_strlit("3");
        reveal_strlit("4");
        reveal_strlit("5");
        reveal_strlit("6");
        reveal_strlit("7");
        reveal_strlit("8");
        reveal_strlit("9");
    }
    let text = if d == 0 {
        "0"
    } else if d == 1 {
        "1"
    } else if d == 2 {
        "2"
    } else if d == 3 {
        "3"
    } else if d == 4 {
        "4"
    } else if d == 5 {
        "5"
    } else if d == 6 {
        "6"
    } else if d == 7 {
        "7"
    } else if d == 8 {
        "8"
    } else {
        "9"
    };
    assert(text@ =~= seq![digit_char(d as nat)]);
    text
}

/// Writes a number in decimal.
pub fn decimal_string(n: u32) -> (text: String)
    ensures
        text@ == decimal(n as nat),
    decreases n,
{
    if n < 10 {
        String::from_str(digit_text(n))
    } else {
        let mut text = decimal_string(n / 10);
        text.append(digit_text(n % 10));
        assert(text@ =~= decimal(n as nat));
        text
    }
}

/// Two numbers written alike are the same number.
pub proof fn lemma_decimal_injective(m: nat, n: nat)
    requires
        decimal(m) == decimal(n),
    ensures
        m == n,
    decreases m,
{
    lemma_decimal_len(m);
    lemma_decimal_len(n);
    if m < 10 && n < 10 {
        assert(decimal(m)[0] == digit_char(m));
        assert(decimal(n)[0] == digit_char(n));
    } else if m < 10 {
        lemma_decimal_len(n / 10);
        assert(decimal(n).len() >= 2);
    } else if n < 10 {
        lemma_decimal_len(m / 10);
        assert(decimal(m).len() >= 2);
    } else {
        let a = decimal(m / 10);
        let b = decimal(n / 10);
        let x = digit_char(m % 10);
        let y = digit_char(n % 10);
        assert(decimal(m) == a.push(x));
        assert(decimal(n) == b.push(y));
        assert(a.push(x).drop_last() =~= a);
        assert(b.push(y).drop_last() =~= b);
        assert(a.push(x).last() == x);
        assert(b.push(y).last() == y);
        lemma_decimal_injective(m / 10, n / 10);
        assert(m % 10 == n % 10);
    }
}

/// A number in decimal has at least one digit.
pub proof fn lemma_decimal_len(n: nat)
    ensures
        decimal(n).len() >= 1,
    decreases n,
{
    if n >= 10 {
        lemma_decimal_len(n / 10);
    }
}

/// The label is a function of the five fields: identities that agree in
/// every field have the same label.
pub proof fn lemma_label_deterministic(a: PackageIdentity, b: PackageIdentity)
    requires
        a.same_fields(b),
    ensures
        a.label() == b.label(),
{
}

/// Identities that differ in one field have different labels.
pub proof fn lemma_label_distinct(a: PackageIdentity, b: PackageIdentity)
    requires
        a.differs_in_one_field(b),
    ensures
        a.label() != b.label(),
{
    let ea = decimal(a.epoch as nat);
    let eb = decimal(b.epoch as nat);
    lemma_decimal_len(a.epoch as nat);
    lemma_decimal_len(b.epoch as nat);
    if a.label() == b.label() {
        let dash = seq!['-'];
        let colon = seq![':'];
        let dot = seq!['.'];
        if a.name@ != b.name@ {
            let tail = dash + epoch_part(ea) + a.version@ + dash + a.release@ + dot + a.arch@;
            assert(a.label() =~= a.name@ + tail);
            assert(b.label() =~= b.name@ + tail);
            lemma_same_tail(a.name@, b.name@, tail);
        } else if a.epoch != b.epoch {
            let head = a.name@ + dash;
            let tail = colon + a.version@ + dash + a.release@ + dot + a.arch@;
            assert(a.label() =~= head + (ea + tail));
            assert(b.label() =~= head + (eb + tail));
            lemma_same_head(head, ea + tail, eb + tail);
            lemma_same_tail(ea, eb, tail);
            lemma_decimal_injective(a.epoch as nat, b.epoch as nat);
        } else if a.version@ != b.version@ {
            let head = a.name@ + dash + epoch_part(ea);
            let tail = dash + a.release@ + dot + a.arch@;
            assert(a.label() =~= head + (a.version@ + tail));
            assert(b.label() =~= head + (b.version@ + tail));
            lemma_same_head(head, a.version@ + tail, b.version@ + tail);
            lemma_same_tail(a.version@, b.version@, tail);
        } else if a.release@ != b.release@ {
            let head = a.name@ + dash + epoch_part(ea) + a.version@ + dash;
            let tail = dot + a.arch@;
            assert(a.label() =~= head + (a.release@ + tail));
            assert(b.label() =~= head + (b.release@ + tail));
            lemma_same_head(head, a.release@ + tail, b.release@ + tail);
            lemma_same_tail(a.release@, b.release@, tail);
        } else {
            let head = a.name@ + dash + epoch_part(ea) + a.version@ + dash + a.release@ + dot;
            assert(a.label() =~= head + a.arch@);
            assert(b.label() =~= head + b.arch@);
            lemma_same_head(head, a.arch@, b.arch@);
        }
    }
}

/// Texts that are equal after the same head are equal.
proof fn lemma_same_head(head: Seq<char>, x: Seq<char>, y: Seq<char>)
    requires
        head + x == head + y,
    ensures
        x == y,
{
    assert((head + x).skip(head.len() as int) =~= x);
    assert((head + y).skip(head.len() as int) =~= y);
}

/// Texts that are equal before the same tail are equal.
proof fn lemma_same_tail(x: Seq<char>, y: Seq<char>, tail: Seq<char>)
    requires
        x + tail == y + tail,
    ensures
        x == y,
{
    assert((x + tail).len() == x.len() + tail.len());
    assert((y + tail).len() == y.len() + tail.len());
    assert((x + tail).take(x.len() as int) =~= x);
    assert((y + tail).take(y.len() as int) =~= y);
}

} // verus!
