//! The plain-text diagnostics report a user can paste to a stranger, and the
//! Windows version line in it. What goes into the report is gathered where
//! the files, the registry and the update state are; what it says, and the
//! judgements in it (which role is a fault, whether the catalog is broken,
//! which Windows this really is), are made here.

use vstd::prelude::*;
use crate::cursor::RoleAudit;
use crate::text::{append, chars_of, push_char, string_of};

verus! {

/// The character of a decimal digit.
pub open spec fn digit_char(d: int) -> char {
    if d == 0 {
        '0'
    } else if d == 1 {
        '1'
    } else if d == 2 {
        '2'
    } else if d == 3 {
        '3'
    } else if d == 4 {
        '4'
    } else if d == 5 {
        '5'
    } else if d == 6 {
        '6'
    } else if d == 7 {
        '7'
    } else if d == 8 {
        '8'
    } else {
        '9'
    }
}

/// `n` written in decimal, without leading zeros.
pub open spec fn decimal(n: nat) -> Seq<char>
    decreases n,
{
    if n < 10 {
        seq![digit_char(n as int)]
    } else {
        decimal(n / 10).push(digit_char((n % 10) as int))
    }
}

fn digit_of(d: u64) -> (c: char)
    requires
        d < 10,
    ensures
        c == digit_char(d as int),
{
    if d == 0 {
        '0'
    } else if d == 1 {
        '1'
    } else if d == 2 {
        '2'
    } else if d == 3 {
        '3'
    } else if d == 4 {
        '4'
    } else if d == 5 {
        '5'
    } else if d == 6 {
        '6'
    } else if d == 7 {
        '7'
    } else if d == 8 {
        '8'
    } else {
        '9'
    }
}

/// Appends `n` in decimal.
pub fn push_decimal(out: &mut String, n: u64)
    ensures
        final(out)@ == old(out)@ + decimal(n as nat),
    decreases n,
{
    if n >= 10 {
        push_decimal(out, n / 10);
    }
    push_char(out, digit_of(n % 10));
    assert(final(out)@ =~= old(out)@ + decimal(n as nat)) by {
        if n >= 10 {
            assert(decimal(n as nat) == decimal((n / 10) as nat).push(digit_char((n % 10) as int)));
        }
    };
}

/// `true` or `false`, as Rust prints them.
pub open spec fn bool_text(b: bool) -> Seq<char> {
    if b { "true"@ } else { "false"@ }
}

fn push_bool(out: &mut String, b: bool)
    ensures
        final(out)@ == old(out)@ + bool_text(b),
{
    if b {
        append(out, "true");
    } else {
        append(out, "false");
    }
}

/// `s` left-aligned in a field of `width` characters.
pub open spec fn padded_to(s: Seq<char>, width: int) -> Seq<char> {
    if s.len() >= width { s } else { s + Seq::new((width - s.len()) as nat, |i: int| ' ') }
}

fn push_padded(out: &mut String, text: &str, width: usize)
    ensures
        final(out)@ == old(out)@ + padded_to(text@, width as int),
{
    let chars = chars_of(text);
    let ghost start = out@;
    append(out, text);
    let mut k = chars.len();
    while k < width
        invariant
            chars@ == text@,
            chars@.len() <= k <= width || (k == chars@.len() && k >= width),
            k >= chars@.len(),
            out@ == start + text@ + Seq::new((k - chars@.len()) as nat, |i: int| ' '),
        decreases width - k,
    {
        push_char(out, ' ');
        assert(out@ =~= start + text@ + Seq::new((k + 1 - chars@.len()) as nat, |i: int| ' '));
        k = k + 1;
    }
    assert(out@ =~= start + padded_to(text@, width as int)) by {
        if chars@.len() >= width {
            assert(Seq::new(0 as nat, |i: int| ' ') =~= Seq::<char>::empty());
        }
    };
}

} // verus!

verus! {

/// The characters of "Windows 10".
pub open spec fn windows_ten() -> Seq<char> {
    seq!['W', 'i', 'n', 'd', 'o', 'w', 's', ' ', '1', '0']
}

/// The characters of "Windows 11".
pub open spec fn windows_eleven() -> Seq<char> {
    seq!['W', 'i', 'n', 'd', 'o', 'w', 's', ' ', '1', '1']
}

/// `s` with every "Windows 10" replaced by "Windows 11", left to right.
pub open spec fn elevened(s: Seq<char>) -> Seq<char>
    decreases s.len(),
{
    if s.len() < 10 {
        s
    } else if s.take(10) == windows_ten() {
        windows_eleven() + elevened(s.skip(10))
    } else {
        seq![s[0]] + elevened(s.skip(1))
    }
}

/// A character is a decimal digit.
pub open spec fn is_digit(c: char) -> bool {
    '0' <= c <= '9'
}

/// The value of a run of digits, read left to right.
pub open spec fn digits_value(s: Seq<char>) -> int
    decreases s.len(),
{
    if s.len() == 0 {
        0
    } else {
        digits_value(s.drop_last()) * 10 + (s.last() as int - '0' as int)
    }
}

/// `s` without the one `+` it may start with.
pub open spec fn number_part(s: Seq<char>) -> Seq<char> {
    if s.len() > 0 && s[0] == '+' { s.skip(1) } else { s }
}

/// Every character of `t` is a digit.
pub open spec fn all_digits(t: Seq<char>) -> bool {
    forall|i: int| 0 <= i < t.len() ==> is_digit(#[trigger] t[i])
}

/// What `str::parse::<u32>` gives: an optional `+`, then one digit or more,
/// and a value that fits.
pub open spec fn parsed_u32(s: Seq<char>) -> Option<int> {
    let body = number_part(s);
    if body.len() > 0 && all_digits(body) && digits_value(body) <= u32::MAX {
        Some(digits_value(body))
    } else {
        None
    }
}

/// The Windows line of the report. Windows 11 still names itself Windows 10
/// in its product name; build 22000 is where it became 11.
pub open spec fn windows_text(product: Seq<char>, display: Seq<char>, build: Seq<char>) -> Seq<char> {
    let eleven = match parsed_u32(build) {
        Some(n) => n >= 22000,
        None => false,
    };
    let name = if eleven { elevened(product) } else { product };
    (if name.len() == 0 { "Windows"@ } else { name }) + (if display.len() > 0 {
        seq![' '] + display
    } else {
        Seq::empty()
    }) + (if build.len() > 0 { " (build "@ + build + ")"@ } else { Seq::empty() })
}

proof fn lemma_digits_value_grows(s: Seq<char>, k: int)
    requires
        0 <= k <= s.len(),
        forall|i: int| 0 <= i < s.len() ==> is_digit(#[trigger] s[i]),
    ensures
        0 <= digits_value(s.take(k)) <= digits_value(s),
    decreases s.len(),
{
    if k < s.len() {
        lemma_digits_value_grows(s.drop_last(), k);
        assert(s.drop_last().take(k) =~= s.take(k));
        assert(is_digit(s.last()));
    } else {
        assert(s.take(k) =~= s);
        if s.len() > 0 {
            lemma_digits_value_grows(s.drop_last(), s.len() - 1);
            assert(s.drop_last().take(s.len() - 1) =~= s.drop_last());
            assert(is_digit(s.last()));
        }
    }
}

/// The build number, if `build` is one `str::parse::<u32>` accepts.
fn parse_build(build: &Vec<char>) -> (out: Option<u32>)
    ensures
        match out {
            Some(v) => parsed_u32(build@) == Some(v as int),
            None => parsed_u32(build@) is None,
        },
{
    let ghost s = build@;
    let start: usize = if build.len() > 0 && build[0] == '+' { 1 } else { 0 };
    let ghost body = number_part(s);
    assert(body =~= s.skip(start as int));
    if start >= build.len() {
        return None;
    }
    let mut value: u64 = 0;
    let mut i = start;
    while i < build.len()
        invariant
            s == build@,
            body == s.skip(start as int),
            body == number_part(s),
            start <= i <= s.len(),
            forall|j: int| 0 <= j < i - start ==> is_digit(#[trigger] body[j]),
            value == digits_value(body.take(i - start)),
            value <= u32::MAX,
        decreases s.len() - i,
    {
        let c = build[i];
        if !('0' <= c && c <= '9') {
            proof {
                assert(body[i - start] == c);
                assert(!is_digit(body[i - start]));
                assert(!all_digits(body));
            }
            return None;
        }
        let d = (c as u64) - ('0' as u64);
        assert(body.take(i - start + 1).drop_last() =~= body.take(i - start));
        let next = value * 10 + d;
        assert(body[i - start] == c);
        assert(body.take(i - start + 1).last() == c);
        assert(digits_value(body.take(i - start + 1)) == next);
        if next > 0xFFFF_FFFF {
            proof {
                if all_digits(body) {
                    lemma_digits_value_grows(body, i - start + 1);
                }
            }
            return None;
        }
        value = next;
        i = i + 1;
    }
    assert(body.take(body.len() as int) =~= body);
    Some(value as u32)
}

/// `s` with every "Windows 10" made "Windows 11".
fn elevened_chars(s: &Vec<char>) -> (out: Vec<char>)
    ensures
        out@ == elevened(s@),
{
    let ten = ['W', 'i', 'n', 'd', 'o', 'w', 's', ' ', '1', '0'];
    let mut out: Vec<char> = Vec::new();
    let mut i: usize = 0;
    assert(s@.skip(0) =~= s@);
    assert(ten@ =~= windows_ten());
    while i < s.len()
        invariant
            i <= s@.len(),
            ten@ == windows_ten(),
            elevened(s@) == out@ + elevened(s@.skip(i as int)),
        decreases s@.len() - i,
    {
        let ghost rest = s@.skip(i as int);
        let room = s.len() - i;
        let mut matched = room >= 10;
        let mut k: usize = 0;
        while matched && k < 10
            invariant
                room == s@.len() - i,
                i + room == s@.len(),
                i < s@.len(),
                s@.len() <= usize::MAX,
                k <= 10,
                matched ==> room >= 10,
                matched ==> forall|j: int| 0 <= j < k ==> s@[i + j] == windows_ten()[j],
                (room >= 10 && !matched) ==> exists|j: int| 0 <= j < k && s@[i + j] != windows_ten()[j],
                ten@ == windows_ten(),
            decreases 10 - k,
        {
            assert(i + k < s@.len());
            if s[i + k] != ten[k] {
                matched = false;
            }
            k = k + 1;
        }
        if matched {
            assert(rest.take(10) =~= windows_ten()) by {
                assert forall|j: int| 0 <= j < 10 implies rest.take(10)[j] == windows_ten()[j] by {
                    assert(rest.take(10)[j] == s@[i + j]);
                }
            }
            assert(rest.skip(10) =~= s@.skip(i + 10));
            out.push('W');
            out.push('i');
            out.push('n');
            out.push('d');
            out.push('o');
            out.push('w');
            out.push('s');
            out.push(' ');
            out.push('1');
            out.push('1');
            assert(elevened(s@) =~= out@ + elevened(s@.skip(i + 10)));
            i = i + 10;
        } else {
            proof {
                if rest.len() >= 10 {
                    assert(rest.take(10) != windows_ten()) by {
                        let j = choose|j: int| 0 <= j < k && s@[i + j] != windows_ten()[j];
                        assert(rest.take(10)[j] == s@[i + j]);
                    }
                }
                assert(rest.skip(1) =~= s@.skip(i + 1));
                assert(rest[0] == s@[i as int]);
                if rest.len() < 10 {
                    assert(elevened(rest) == rest);
                    assert(elevened(s@.skip(i + 1)) == s@.skip(i + 1));
                    assert(rest =~= seq![s@[i as int]] + s@.skip(i + 1));
                }
            }
            out.push(s[i]);
            assert(elevened(s@) =~= out@ + elevened(s@.skip(i + 1)));
            i = i + 1;
        }
    }
    assert(s@.skip(s@.len() as int) =~= Seq::<char>::empty());
    assert(out@ =~= elevened(s@));
    out
}

/// What Windows calls itself, from the three registry values it is read
/// from: `Windows 11 24H2 (build 26200)`.
pub fn windows_label(product: &str, display: &str, build: &str) -> (out: String)
    ensures
        out@ == windows_text(product@, display@, build@),
{
    let product_chars = chars_of(product);
    let build_chars = chars_of(build);
    let eleven = match parse_build(&build_chars) {
        Some(n) => n >= 22000,
        None => false,
    };
    let ghost eleven_spec = match parsed_u32(build@) {
        Some(n) => n >= 22000,
        None => false,
    };
    assert(eleven == eleven_spec);
    let name = if eleven { elevened_chars(&product_chars) } else { product_chars };
    assert(name@ == (if eleven_spec { elevened(product@) } else { product@ }));
    let mut out = String::new();
    if name.len() == 0 {
        append(&mut out, "Windows");
        assert(out@ =~= "Windows"@);
    } else {
        let s = string_of(&name);
        append(&mut out, s.as_str());
        assert(out@ =~= name@);
    }
    let ghost first = out@;
    let display_chars = chars_of(display);
    if display_chars.len() > 0 {
        push_char(&mut out, ' ');
        append(&mut out, display);
        assert(out@ =~= first + (seq![' '] + display@));
    } else {
        assert(out@ =~= first + Seq::<char>::empty());
    }
    let ghost second = out@;
    if build_chars.len() > 0 {
        append(&mut out, " (build ");
        append(&mut out, build);
        append(&mut out, ")");
        assert(out@ =~= second + (" (build "@ + build@ + ")"@));
    } else {
        assert(out@ =~= second + Seq::<char>::empty());
    }
    let ghost spec_name = if eleven_spec { elevened(product@) } else { product@ };
    let ghost a_part = if spec_name.len() == 0 { "Windows"@ } else { spec_name };
    let ghost b_part = if display@.len() > 0 { seq![' '] + display@ } else { Seq::<char>::empty() };
    let ghost c_part = if build@.len() > 0 { " (build "@ + build@ + ")"@ } else { Seq::<char>::empty() };
    assert(first == a_part);
    assert(second == first + b_part);
    assert(out@ == second + c_part);
    assert(windows_text(product@, display@, build@) == a_part + b_part + c_part);
    assert(out@ =~= windows_text(product@, display@, build@));
    out
}

} // verus!

verus! {

/// Who holds the pointer scheme.
pub enum PointerHolder {
    /// This process.
    ThisProcess,
    /// Another install of the app.
    Other { product: String, pid: u32 },
    /// Nobody has claimed it.
    Nobody,
}

/// What became of one of the app's directories.
pub enum Storage {
    Found { exists: bool, writable: bool, path: String },
    Unavailable(String),
}

/// One directory, under the label the report gives it.
pub struct StorageFact {
    pub label: String,
    pub storage: Storage,
}

/// The last update check that completed.
pub struct UpdateCheck {
    pub current: String,
    pub latest: Option<String>,
    pub newer: bool,
}

/// What the updater is doing.
pub struct UpdateFacts {
    pub endpoint: String,
    pub checking: bool,
    pub downloading: bool,
    pub ready: bool,
    pub status: Option<UpdateCheck>,
    pub error: Option<String>,
}

/// Everything the report says, gathered where it lives.
pub struct DiagnosticFacts {
    pub version: String,
    pub commit: String,
    pub arch: String,
    pub exe: String,
    pub signed_updates: bool,
    pub product_name: String,
    pub channel: String,
    pub pointer: PointerHolder,
    pub storage: Vec<StorageFact>,
    pub built_in: u64,
    pub imported: u64,
    /// The cache's size in megabytes, two decimals.
    pub cache_mb: String,
    pub scheme: String,
    pub audits: Vec<RoleAudit>,
    /// Whether the original scheme's snapshot is on disk, or why that
    /// could not be told.
    pub snapshot: String,
    pub applied_recorded: bool,
    pub updates: UpdateFacts,
}

/// A line of the report.
pub open spec fn line(s: Seq<char>) -> Seq<char> {
    s.push('\n')
}

fn end_line(out: &mut String)
    ensures
        final(out)@ == old(out)@.push('\n'),
{
    push_char(out, '\n');
}

pub open spec fn pointer_text(p: PointerHolder) -> Seq<char> {
    match p {
        PointerHolder::ThisProcess => "held by this process"@,
        PointerHolder::Other { product, pid } => "held by "@ + product@ + " (pid "@ + decimal(pid as nat) + ")"@,
        PointerHolder::Nobody => "not claimed"@,
    }
}

/// The first block: which build is running, and who holds the pointer.
pub open spec fn header_text(f: DiagnosticFacts) -> Seq<char> {
    line("CURSED DIAGNOSTICS"@) + line("version "@ + f.version@ + "   commit "@ + f.commit@ + "   arch "@ + f.arch@)
        + line("exe     "@ + f.exe@) + line(
        "updates "@ + (if f.signed_updates {
            "signature + checksum"@
        } else {
            "checksum only (no signing key in this build)"@
        }),
    ) + line("channel "@ + f.product_name@ + " ("@ + f.channel@ + ")"@) + line("pointer "@ + pointer_text(f.pointer))
}

fn push_header(out: &mut String, f: &DiagnosticFacts)
    ensures
        final(out)@ == old(out)@ + header_text(*f),
{
    let ghost s0 = out@;
    append(out, "CURSED DIAGNOSTICS");
    end_line(out);
    let ghost s1 = out@;
    assert(s1 =~= s0 + line("CURSED DIAGNOSTICS"@));
    append(out, "version ");
    append(out, f.version.as_str());
    append(out, "   commit ");
    append(out, f.commit.as_str());
    append(out, "   arch ");
    append(out, f.arch.as_str());
    end_line(out);
    let ghost s2 = out@;
    assert(s2 =~= s1 + line("version "@ + f.version@ + "   commit "@ + f.commit@ + "   arch "@ + f.arch@));
    append(out, "exe     ");
    append(out, f.exe.as_str());
    end_line(out);
    let ghost s3 = out@;
    assert(s3 =~= s2 + line("exe     "@ + f.exe@));
    append(out, "updates ");
    if f.signed_updates {
        append(out, "signature + checksum");
    } else {
        append(out, "checksum only (no signing key in this build)");
    }
    end_line(out);
    let ghost s4 = out@;
    assert(s4 =~= s3 + line(
        "updates "@ + (if f.signed_updates {
            "signature + checksum"@
        } else {
            "checksum only (no signing key in this build)"@
        }),
    ));
    append(out, "channel ");
    append(out, f.product_name.as_str());
    append(out, " (");
    append(out, f.channel.as_str());
    append(out, ")");
    end_line(out);
    let ghost s5 = out@;
    assert(s5 =~= s4 + line("channel "@ + f.product_name@ + " ("@ + f.channel@ + ")"@));
    append(out, "pointer ");
    match &f.pointer {
        PointerHolder::ThisProcess => {
            append(out, "held by this process");
        },
        PointerHolder::Other { product, pid } => {
            append(out, "held by ");
            append(out, product.as_str());
            append(out, " (pid ");
            push_decimal(out, *pid as u64);
            append(out, ")");
        },
        PointerHolder::Nobody => {
            append(out, "not claimed");
        },
    }
    end_line(out);
    assert(out@ =~= s5 + line("pointer "@ + pointer_text(f.pointer)));
    assert(out@ =~= s0 + header_text(*f));
}

/// The line for one directory.
pub open spec fn storage_line(s: StorageFact) -> Seq<char> {
    match s.storage {
        Storage::Found { exists, writable, path } => line(
            s.label@ + "  exists="@ + bool_text(exists) + " writable="@ + bool_text(writable) + "  "@ + path@,
        ),
        Storage::Unavailable(e) => line(s.label@ + "  UNAVAILABLE: "@ + e@),
    }
}

/// The lines for the first `k` directories.
pub open spec fn storage_lines(ss: Seq<StorageFact>, k: int) -> Seq<char>
    decreases k,
{
    if k <= 0 {
        Seq::empty()
    } else {
        storage_lines(ss, k - 1) + storage_line(ss[k - 1])
    }
}

fn push_storage(out: &mut String, ss: &Vec<StorageFact>)
    ensures
        final(out)@ == old(out)@ + line("\nSTORAGE"@) + storage_lines(ss@, ss@.len() as int),
{
    append(out, "\nSTORAGE");
    end_line(out);
    let ghost start = out@;
    let mut k: usize = 0;
    while k < ss.len()
        invariant
            k <= ss@.len(),
            out@ == start + storage_lines(ss@, k as int),
        decreases ss@.len() - k,
    {
        let s = &ss[k];
        let ghost before = out@;
        append(out, s.label.as_str());
        match &s.storage {
            Storage::Found { exists, writable, path } => {
                append(out, "  exists=");
                push_bool(out, *exists);
                append(out, " writable=");
                push_bool(out, *writable);
                append(out, "  ");
                append(out, path.as_str());
            },
            Storage::Unavailable(e) => {
                append(out, "  UNAVAILABLE: ");
                append(out, e.as_str());
            },
        }
        end_line(out);
        assert(out@ =~= before + storage_line(ss@[k as int]));
        assert(out@ =~= start + storage_lines(ss@, k + 1));
        k = k + 1;
    }
}

/// How many built-in and imported cursors there are, and whether the
/// built-in catalog is broken: a count of zero is a bug, not a preference.
pub open spec fn catalog_text(f: DiagnosticFacts) -> Seq<char> {
    line("\nCATALOG"@) + line(
        "built-in "@ + decimal(f.built_in as nat) + "   imported "@ + decimal(f.imported as nat) + "   total "@ + decimal(
            (f.built_in + f.imported) as nat,
        ),
    ) + (if f.built_in == 0 {
        line("!! the built-in catalog is empty -- this is a bug, please report it"@)
    } else {
        Seq::empty()
    }) + line("cache    "@ + f.cache_mb@ + " MB"@)
}

fn push_catalog(out: &mut String, f: &DiagnosticFacts)
    requires
        f.built_in + f.imported <= u64::MAX,
    ensures
        final(out)@ == old(out)@ + catalog_text(*f),
{
    let ghost start = out@;
    append(out, "\nCATALOG");
    end_line(out);
    append(out, "built-in ");
    push_decimal(out, f.built_in);
    append(out, "   imported ");
    push_decimal(out, f.imported);
    append(out, "   total ");
    push_decimal(out, f.built_in + f.imported);
    end_line(out);
    let ghost mid = out@;
    if f.built_in == 0 {
        append(out, "!! the built-in catalog is empty -- this is a bug, please report it");
        end_line(out);
    }
    assert(out@ =~= mid + (if f.built_in == 0 {
        line("!! the built-in catalog is empty -- this is a bug, please report it"@)
    } else {
        Seq::<char>::empty()
    }));
    append(out, "cache    ");
    append(out, f.cache_mb.as_str());
    append(out, " MB");
    end_line(out);
    assert(out@ =~= start + catalog_text(*f));
}

/// What follows a set role's value: the fault, if it has one.
pub open spec fn role_note(a: RoleAudit) -> Seq<char> {
    if !a.exists {
        "   << FILE MISSING"@
    } else if !a.ok {
        "   << NOT A LOADABLE CURSOR"@
    } else {
        Seq::empty()
    }
}

/// The line for one role: an empty role is Windows drawing its own, which is
/// not a fault.
pub open spec fn role_line(a: RoleAudit) -> Seq<char> {
    if !a.set {
        line("  "@ + padded_to(a.role@, 12) + " (empty -- Windows default)"@)
    } else {
        line("  "@ + padded_to(a.role@, 12) + " "@ + a.value@ + role_note(a))
    }
}

pub open spec fn role_lines(audits: Seq<RoleAudit>, k: int) -> Seq<char>
    decreases k,
{
    if k <= 0 {
        Seq::empty()
    } else {
        role_lines(audits, k - 1) + role_line(audits[k - 1])
    }
}

/// How many of the first `k` roles are set.
pub open spec fn set_count(audits: Seq<RoleAudit>, k: int) -> int
    decreases k,
{
    if k <= 0 {
        0
    } else {
        set_count(audits, k - 1) + if audits[k - 1].set { 1int } else { 0int }
    }
}

/// How many of the first `k` roles are faults.
pub open spec fn fault_count(audits: Seq<RoleAudit>, k: int) -> int
    decreases k,
{
    if k <= 0 {
        0
    } else {
        fault_count(audits, k - 1) + if !audits[k - 1].ok { 1int } else { 0int }
    }
}

/// What Windows points at now, and whether each file is still a cursor.
pub open spec fn registry_text(f: DiagnosticFacts) -> Seq<char> {
    let n = f.audits@.len() as int;
    line("\nREGISTRY  HKCU\\Control Panel\\Cursors"@) + line("scheme  "@ + f.scheme@) + role_lines(f.audits@, n) + line(
        "  "@ + decimal(set_count(f.audits@, n) as nat) + " of 17 set, "@ + decimal(fault_count(f.audits@, n) as nat)
            + " fault(s)"@,
    )
}

fn push_registry(out: &mut String, f: &DiagnosticFacts)
    ensures
        final(out)@ == old(out)@ + registry_text(*f),
{
    let ghost start = out@;
    let ghost audits = f.audits@;
    append(out, "\nREGISTRY  HKCU\\Control Panel\\Cursors");
    end_line(out);
    append(out, "scheme  ");
    append(out, f.scheme.as_str());
    end_line(out);
    let ghost head = out@;
    let mut set: u64 = 0;
    let mut faults: u64 = 0;
    let mut k: usize = 0;
    while k < f.audits.len()
        invariant
            audits == f.audits@,
            k <= audits.len(),
            out@ == head + role_lines(audits, k as int),
            set == set_count(audits, k as int),
            faults == fault_count(audits, k as int),
            set <= k,
            faults <= k,
        decreases audits.len() - k,
    {
        let a = &f.audits[k];
        let ghost before = out@;
        append(out, "  ");
        push_padded(out, a.role.as_str(), 12);
        if !a.set {
            append(out, " (empty -- Windows default)");
        } else {
            append(out, " ");
            append(out, a.value.as_str());
            if !a.exists {
                append(out, "   << FILE MISSING");
            } else if !a.ok {
                append(out, "   << NOT A LOADABLE CURSOR");
            }
        }
        end_line(out);
        assert(out@ =~= before + role_line(audits[k as int]));
        assert(out@ =~= head + role_lines(audits, k + 1));
        if a.set {
            set = set + 1;
        }
        if !a.ok {
            faults = faults + 1;
        }
        k = k + 1;
    }
    let ghost lines = out@;
    append(out, "  ");
    push_decimal(out, set);
    append(out, " of 17 set, ");
    push_decimal(out, faults);
    append(out, " fault(s)");
    end_line(out);
    assert(out@ =~= start + registry_text(*f));
}

/// Whether the way back to the user's own cursors is in place.
pub open spec fn safety_text(f: DiagnosticFacts) -> Seq<char> {
    line("\nSAFETY NET"@) + line("original scheme snapshot  "@ + f.snapshot@) + line(
        "applied state recorded    "@ + bool_text(f.applied_recorded),
    )
}

fn push_safety(out: &mut String, f: &DiagnosticFacts)
    ensures
        final(out)@ == old(out)@ + safety_text(*f),
{
    let ghost start = out@;
    append(out, "\nSAFETY NET");
    end_line(out);
    append(out, "original scheme snapshot  ");
    append(out, f.snapshot.as_str());
    end_line(out);
    append(out, "applied state recorded    ");
    push_bool(out, f.applied_recorded);
    end_line(out);
    assert(out@ =~= start + safety_text(*f));
}

/// What the updater is doing, and its last error verbatim: a paraphrased
/// error is a useless one.
pub open spec fn updates_text(u: UpdateFacts) -> Seq<char> {
    line("\nUPDATES"@) + line("endpoint  "@ + u.endpoint@) + line(
        "checking="@ + bool_text(u.checking) + " downloading="@ + bool_text(u.downloading) + " ready="@ + bool_text(
            u.ready,
        ),
    ) + status_text(u.status) + match u.error {
        Some(e) => line("last error: "@ + e@),
        None => Seq::empty(),
    }
}

/// The line of the last completed check.
pub open spec fn status_text(st: Option<UpdateCheck>) -> Seq<char> {
    match st {
        Some(s) => line(
            "current "@ + s.current@ + "   latest "@ + (match s.latest {
                Some(l) => l@,
                None => "(unknown)"@,
            }) + "   newer "@ + bool_text(s.newer),
        ),
        None => line("no check has completed yet"@),
    }
}

fn push_status(out: &mut String, st: &Option<UpdateCheck>)
    ensures
        final(out)@ == old(out)@ + status_text(*st),
{
    let ghost s0 = out@;
    match st {
        Some(s) => {
            append(out, "current ");
            append(out, s.current.as_str());
            append(out, "   latest ");
            match &s.latest {
                Some(l) => append(out, l.as_str()),
                None => append(out, "(unknown)"),
            }
            append(out, "   newer ");
            push_bool(out, s.newer);
            end_line(out);
        },
        None => {
            append(out, "no check has completed yet");
            end_line(out);
        },
    }
    assert(out@ =~= s0 + status_text(*st));
}

fn push_updates(out: &mut String, u: &UpdateFacts)
    ensures
        final(out)@ == old(out)@ + updates_text(*u),
{
    let ghost s0 = out@;
    append(out, "\nUPDATES");
    end_line(out);
    let ghost s1 = out@;
    assert(s1 =~= s0 + line("\nUPDATES"@));
    append(out, "endpoint  ");
    append(out, u.endpoint.as_str());
    end_line(out);
    let ghost s2 = out@;
    assert(s2 =~= s1 + line("endpoint  "@ + u.endpoint@));
    append(out, "checking=");
    push_bool(out, u.checking);
    append(out, " downloading=");
    push_bool(out, u.downloading);
    append(out, " ready=");
    push_bool(out, u.ready);
    end_line(out);
    let ghost s3 = out@;
    assert(s3 =~= s2 + line(
        "checking="@ + bool_text(u.checking) + " downloading="@ + bool_text(u.downloading) + " ready="@ + bool_text(
            u.ready,
        ),
    ));
    push_status(out, &u.status);
    let ghost s4 = out@;
    match &u.error {
        Some(e) => {
            append(out, "last error: ");
            append(out, e.as_str());
            end_line(out);
        },
        None => {},
    }
    assert(out@ =~= s4 + match u.error {
        Some(e) => line("last error: "@ + e@),
        None => Seq::<char>::empty(),
    });
    assert(out@ =~= s0 + updates_text(*u));
}

/// The whole report.
pub open spec fn report_text(f: DiagnosticFacts) -> Seq<char> {
    header_text(f) + line("\nSTORAGE"@) + storage_lines(f.storage@, f.storage@.len() as int) + catalog_text(f)
        + registry_text(f) + safety_text(f) + updates_text(f.updates)
}

/// A plain-text report the user can copy straight into a message: which
/// build is running, whether its directories can be written, how many
/// cursors the catalog offers, whether the seventeen roles still point at
/// loadable cursors, and what the updater last did.
pub fn diagnostics_report(facts: &DiagnosticFacts) -> (out: String)
    requires
        facts.built_in + facts.imported <= u64::MAX,
    ensures
        out@ == report_text(*facts),
{
    let mut out = String::new();
    push_header(&mut out, facts);
    push_storage(&mut out, &facts.storage);
    push_catalog(&mut out, facts);
    push_registry(&mut out, facts);
    push_safety(&mut out, facts);
    push_updates(&mut out, &facts.updates);
    assert(out@ =~= report_text(*facts));
    out
}

} // verus!
