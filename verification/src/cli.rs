//! What a command line asks for. Arguments are named by their position; reading
//! the files that they name is left to the caller.

use vstd::prelude::*;

use crate::bruteforce::SourceMode;
use crate::constants::KeySet;
use crate::util;
use crate::util::{hex_digit, hex_digits_16, points_of, same_text};

verus! {

/// What an argument stands for.
#[derive(Clone, Copy, Debug, PartialEq, Eq, Structural)]
pub enum Field {
    /// SDAT or EDAT.
    Format,
    /// Debug or finalized.
    Data,
    /// The version of the container.
    Version,
    /// Whether the container is compressed.
    Compression,
    /// The block size in kilobytes.
    Block,
    /// The license.
    License,
    /// The kind of application.
    Type,
    /// Which klicensee to take.
    KeyMode,
    /// How a klicensee is written in the source.
    BruteForceMode,
}

/// Why a command line is refused.
#[derive(Clone, Copy, Debug, PartialEq, Eq, Structural)]
pub enum CliError {
    /// An argument is not a number.
    InvalidNumber {
        /// What it stands for.
        field: Field,
        /// Which one it is.
        index: usize,
    },
    /// No such key mode.
    InvalidMode,
    /// Numbers out of range.
    InvalidParameters,
    /// A finalized EDAT needs more arguments.
    NotEnoughParameters,
    /// The license or the content identifier of a finalized EDAT is out of
    /// range.
    InvalidFinalizedParameters,
    /// A key that is not 32 hexadecimal digits.
    InvalidHexKey,
}

/// Where the klicensee comes from.
#[derive(Clone, Copy, Debug, PartialEq, Eq, Structural)]
pub enum KlicSource {
    /// All zeros.
    Zero,
    /// The free license key.
    Omac1,
    /// The second NPDRM key.
    Omac2,
    /// The third NPDRM key.
    Omac3,
    /// The PS3 klicensee.
    Klic,
    /// The klicensee of PSOne classics.
    Psx,
    /// The klicensee of PSP minis.
    Psp1,
    /// The klicensee of PSP remasters.
    Psp2,
    /// A file of its own.
    File,
    /// An argument of 32 hexadecimal digits.
    Hex {
        /// Which one it is.
        index: usize,
    },
}

/// A container to be made.
#[derive(Clone, Copy, Debug, PartialEq, Eq)]
pub struct EncryptPlan {
    /// The argument that names the payload.
    pub input: usize,
    /// The argument that names the container.
    pub output: usize,
    /// The argument that holds the content identifier, if there is one.
    pub content_id: Option<usize>,
    /// The klicensee.
    pub klic: KlicSource,
    /// The argument that names the RAP or RIF file, if there is one.
    pub rap: Option<usize>,
    /// The version of the container.
    pub version: u32,
    /// The license.
    pub license: u32,
    /// The kind of application.
    pub npd_type: u32,
    /// The block size in kilobytes.
    pub block_kb: u32,
    /// Whether the container is compressed.
    pub use_compression: bool,
    /// EDAT or SDAT.
    pub is_edat: bool,
    /// Finalized or debug.
    pub is_finalized: bool,
}

/// A container to be extracted.
#[derive(Clone, Copy, Debug, PartialEq, Eq)]
pub struct DecryptPlan {
    /// The argument that names the container.
    pub input: usize,
    /// The argument that names the payload.
    pub output: usize,
    /// The klicensee.
    pub klic: KlicSource,
    /// The argument that names the RAP or RIF file, if there is one.
    pub rap: Option<usize>,
}

/// A klicensee to be searched for.
#[derive(Clone, Copy, Debug, PartialEq, Eq)]
pub struct BruteForcePlan {
    /// The argument that names the container.
    pub input: usize,
    /// The argument that names the source.
    pub source: usize,
    /// How the klicensee is written in the source.
    pub mode: SourceMode,
}

/// What a command line asks for.
#[derive(Clone, Copy, Debug, PartialEq, Eq)]
pub enum Command {
    /// The usage text.
    Usage,
    /// The headers of a container.
    Info {
        /// The argument that names it.
        path: usize,
    },
    /// The RIF key of a RAP file.
    Rap2Rif {
        /// The argument that names it.
        path: usize,
    },
    /// To make a container.
    Encrypt {
        /// Which one.
        making: EncryptPlan,
        /// Whether to say more.
        verbose: bool,
    },
    /// To extract a container.
    Decrypt {
        /// Which one.
        extracting: DecryptPlan,
        /// Whether to say more.
        verbose: bool,
    },
    /// To search for a klicensee.
    BruteForce {
        /// Which one.
        searching: BruteForcePlan,
        /// Whether to say more.
        verbose: bool,
    },
}

/// The number that some digits write. The first digit counts most.
pub open spec fn digits_value(radix: nat, digits: Seq<u32>) -> nat
    decreases digits.len(),
{
    if digits.len() == 0 {
        0
    } else {
        digits_value(radix, digits.drop_last()) * radix + util::hex_value(
            digits.last(),
        )->Some_0 as nat
    }
}

/// Whether these are digits, and at least one.
pub open spec fn are_digits(radix: nat, digits: Seq<u32>) -> bool {
    digits.len() > 0 && forall|i: int|
        0 <= i < digits.len() ==> (util::hex_value(#[trigger] digits[i]) matches Some(d) && d
            < radix)
}

/// The 32-bit number that some text writes: digits, after a sign or none. None
/// for anything else, and for numbers that do not fit.
pub open spec fn number(radix: nat, text: Seq<u32>) -> Option<int> {
    let signed = text.len() > 0 && (text[0] == 0x2B || text[0] == 0x2D);
    let digits = if signed {
        text.skip(1)
    } else {
        text
    };
    let value = digits_value(radix, digits);
    let v = if signed && text[0] == 0x2D {
        -value
    } else {
        value as int
    };
    if are_digits(radix, digits) && i32::MIN <= v <= i32::MAX {
        Some(v)
    } else {
        None
    }
}

proof fn lemma_digits_grow(radix: nat, digits: Seq<u32>, n: int)
    requires
        0 <= n <= digits.len(),
        radix >= 1,
    ensures
        digits_value(radix, digits.take(n)) <= digits_value(radix, digits),
    decreases digits.len() - n,
{
    if n == digits.len() {
        assert(digits.take(n) =~= digits);
    } else {
        lemma_digits_grow(radix, digits, n + 1);
        let longer = digits.take(n + 1);
        assert(longer.drop_last() =~= digits.take(n));
        let v = digits_value(radix, digits.take(n));
        assert(v <= v * radix) by (nonlinear_arith)
            requires
                radix >= 1,
        ;
    }
}

/// Reads digits. None where one is none, where there are none, and where the
/// number is above 2^31.
fn read_digits(radix: u32, digits: &[u32]) -> (r: Option<u64>)
    requires
        2 <= radix <= 16,
    ensures
        match r {
            Some(v) => v <= 0x8000_0000 && are_digits(radix as nat, digits@) && v == digits_value(
                radix as nat,
                digits@,
            ),
            None => !are_digits(radix as nat, digits@) || digits_value(radix as nat, digits@)
                > 0x8000_0000,
        },
{
    if digits.len() == 0 {
        return None;
    }
    let mut v: u64 = 0;
    let mut i: usize = 0;
    assert(digits@.take(0) =~= Seq::<u32>::empty());
    while i < digits.len()
        invariant
            i <= digits@.len(),
            digits@.len() > 0,
            2 <= radix <= 16,
            v <= 0x8000_0000,
            v == digits_value(radix as nat, digits@.take(i as int)),
            forall|j: int|
                0 <= j < i ==> (util::hex_value(#[trigger] digits@[j]) matches Some(d) && d
                    < radix),
        decreases digits@.len() - i,
    {
        let d: u64 = match hex_digit(digits[i]) {
            Some(d) => d as u64,
            None => {
                return None;
            },
        };
        if d >= radix as u64 {
            return None;
        }
        proof {
            let longer = digits@.take(i + 1);
            assert(longer.drop_last() =~= digits@.take(i as int));
            assert(longer.last() == digits@[i as int]);
            lemma_digits_grow(radix as nat, digits@, i + 1);
            assert(v * radix <= 0x8000_0000 * 16) by (nonlinear_arith)
                requires
                    v <= 0x8000_0000,
                    radix <= 16,
            ;
            assert(v * radix == digits_value(radix as nat, digits@.take(i as int)) * radix as nat);
        }
        v = v * radix as u64 + d;
        if v > 0x8000_0000 {
            return None;
        }
        i = i + 1;
    }
    assert(digits@.take(digits@.len() as int) =~= digits@);
    Some(v)
}

/// Reads a 32-bit number.
fn read_number(radix: u32, text: &str) -> (r: Option<i32>)
    requires
        2 <= radix <= 16,
    ensures
        match r {
            Some(v) => number(radix as nat, util::code_points(text@)) == Some(v as int),
            None => number(radix as nat, util::code_points(text@)) is None,
        },
{
    let points: Vec<u32> = points_of(text);
    let signed: bool = points.len() > 0 && (points[0] == 0x2B || points[0] == 0x2D);
    let negative: bool = signed && points[0] == 0x2D;
    let from: usize = if signed {
        1
    } else {
        0
    };
    let digits = vstd::slice::slice_subrange(&points, from, points.len());
    assert(digits@ =~= (if signed {
        points@.skip(1)
    } else {
        points@
    }));
    match read_digits(radix, digits) {
        Some(v) => {
            if negative {
                Some((0 - v as i64) as i32)
            } else if v == 0x8000_0000 {
                None
            } else {
                Some(v as i32)
            }
        },
        None => None,
    }
}

/// Reads a decimal number.
pub fn parse_i32_arg(value: &str) -> (r: Option<i32>)
    ensures
        match r {
            Some(v) => number(10, util::code_points(value@)) == Some(v as int),
            None => number(10, util::code_points(value@)) is None,
        },
{
    read_number(10, value)
}

/// Reads a hexadecimal number.
pub fn parse_hex_i32_arg(value: &str) -> (r: Option<i32>)
    ensures
        match r {
            Some(v) => number(16, util::code_points(value@)) == Some(v as int),
            None => number(16, util::code_points(value@)) is None,
        },
{
    read_number(16, value)
}

/// Whether some text is 32 hexadecimal digits.
pub fn is_hex_32(value: &str) -> (yes: bool)
    ensures
        yes == (util::hex_key(util::code_points(value@)) is Some),
{
    hex_digits_16(&points_of(value)).is_some()
}

/// Reads a key from 32 hexadecimal digits.
pub fn hex_16(value: &str) -> (r: Result<[u8; 16], CliError>)
    ensures
        match r {
            Ok(key) => util::hex_key(util::code_points(value@)) == Some(key@),
            Err(e) => e == CliError::InvalidHexKey && util::hex_key(
                util::code_points(value@),
            ) is None,
        },
{
    match hex_digits_16(&points_of(value)) {
        Some(key) => Ok(key),
        None => Err(CliError::InvalidHexKey),
    }
}

/// The text of each argument.
pub open spec fn texts(args: Seq<String>) -> Seq<Seq<char>> {
    Seq::new(args.len(), |i: int| args[i]@)
}

/// The decimal number that an argument writes.
pub open spec fn decimal(args: Seq<Seq<char>>, i: nat) -> Option<int> {
    number(10, util::code_points(args[i as int]))
}

/// The hexadecimal number that an argument writes.
pub open spec fn hexadecimal(args: Seq<Seq<char>>, i: nat) -> Option<int> {
    number(16, util::code_points(args[i as int]))
}

/// The first argument from `from` on that is no decimal number, if there is
/// one. Each field takes one argument.
pub open spec fn first_bad(args: Seq<Seq<char>>, from: nat, fields: Seq<Field>) -> Option<CliError>
    decreases fields.len(),
{
    if fields.len() == 0 {
        None
    } else if decimal(args, from) is None {
        Some(CliError::InvalidNumber { field: fields[0], index: from as usize })
    } else {
        first_bad(args, from + 1, fields.skip(1))
    }
}

/// The klicensee that a key mode names.
pub open spec fn klic_choice(mode: int) -> Result<KlicSource, CliError> {
    if mode == 0 {
        Ok(KlicSource::Zero)
    } else if mode == 1 {
        Ok(KlicSource::Omac1)
    } else if mode == 2 {
        Ok(KlicSource::Omac2)
    } else if mode == 3 {
        Ok(KlicSource::Omac3)
    } else if mode == 4 {
        Ok(KlicSource::Klic)
    } else if mode == 5 {
        Ok(KlicSource::Psx)
    } else if mode == 6 {
        Ok(KlicSource::Psp1)
    } else if mode == 7 {
        Ok(KlicSource::Psp2)
    } else if mode == 8 {
        Ok(KlicSource::File)
    } else {
        Err(CliError::InvalidMode)
    }
}

/// The klicensee that the key mode at `at` names, and whether the argument at
/// `next` was taken for it: 32 hexadecimal digits after key mode 8.
pub open spec fn klic_planned(args: Seq<Seq<char>>, at: nat, next: nat) -> Result<
    (KlicSource, bool),
    CliError,
> {
    match decimal(args, at) {
        None => Err(CliError::InvalidNumber { field: Field::KeyMode, index: at as usize }),
        Some(mode) => if mode == 8 && next < args.len() && util::hex_key(
            util::code_points(args[next as int]),
        ) is Some {
            Ok((KlicSource::Hex { index: next as usize }, true))
        } else {
            match klic_choice(mode) {
                Ok(klic) => Ok((klic, false)),
                Err(e) => Err(e),
            }
        },
    }
}

/// An argument that may be missing.
pub open spec fn optional(args: Seq<Seq<char>>, i: nat) -> Option<usize> {
    if i < args.len() {
        Some(i as usize)
    } else {
        None
    }
}

/// Whether a content identifier has 1 to 48 bytes.
pub open spec fn content_id_fits(text: Seq<char>) -> bool {
    1 <= vstd::utf8::encode_utf8(text).len() <= 0x30
}

/// The word that holds a 32-bit number.
pub open spec fn as_word(v: int) -> u32 {
    (if v < 0 {
        v + 0x1_0000_0000
    } else {
        v
    }) as u32
}

/// Whether a block size is offered.
pub open spec fn block_offered(block: int) -> bool {
    block == 1 || block == 2 || block == 4 || block == 8 || block == 16 || block == 32
}

/// What the fields of the current encryption syntax must hold.
pub open spec fn v134_in_range(
    format: int,
    data: int,
    version: int,
    compression: int,
    block: int,
) -> bool {
    0 <= format <= 1 && 0 <= data <= 1 && 1 <= version <= 4 && 0 <= compression <= 1
        && block_offered(block)
}

/// The fields of the current encryption syntax.
pub open spec fn v134_fields() -> Seq<Field> {
    seq![Field::Format, Field::Data, Field::Version, Field::Compression, Field::Block]
}

/// The fields of the older encryption syntax.
pub open spec fn v12_fields() -> Seq<Field> {
    seq![
        Field::Version,
        Field::License,
        Field::Type,
        Field::Format,
        Field::Block,
        Field::Compression,
    ]
}

/// Whether the arguments follow the current encryption syntax.
pub open spec fn is_v134(args: Seq<Seq<char>>, m: nat) -> bool {
    args.len() > m + 7 && first_bad(args, m + 3, v134_fields()) is None && v134_in_range(
        decimal(args, m + 3)->Some_0,
        decimal(args, m + 4)->Some_0,
        decimal(args, m + 5)->Some_0,
        decimal(args, m + 6)->Some_0,
        decimal(args, m + 7)->Some_0,
    )
}

/// What the current encryption syntax asks for. None for the usage text.
pub open spec fn v134_plan(args: Seq<Seq<char>>, m: nat) -> Result<
    Option<EncryptPlan>,
    CliError,
> {
    if args.len() <= m + 7 {
        Ok(None)
    } else if first_bad(args, m + 3, v134_fields()) is Some {
        Err(first_bad(args, m + 3, v134_fields())->Some_0)
    } else if !is_v134(args, m) {
        Err(CliError::InvalidParameters)
    } else {
        let plan = EncryptPlan {
            input: (m + 1) as usize,
            output: (m + 2) as usize,
            content_id: None,
            klic: KlicSource::Zero,
            rap: None,
            version: decimal(args, m + 5)->Some_0 as u32,
            license: 0,
            npd_type: 0,
            block_kb: decimal(args, m + 7)->Some_0 as u32,
            use_compression: decimal(args, m + 6)->Some_0 != 0,
            is_edat: decimal(args, m + 3)->Some_0 != 0,
            is_finalized: decimal(args, m + 4)->Some_0 != 0,
        };
        if plan.is_edat && plan.is_finalized {
            finalized_plan(args, m, plan)
        } else {
            Ok(Some(plan))
        }
    }
}

/// What the current encryption syntax asks for where it makes a finalized EDAT.
pub open spec fn finalized_plan(args: Seq<Seq<char>>, m: nat, plan: EncryptPlan) -> Result<
    Option<EncryptPlan>,
    CliError,
> {
    if args.len() <= m + 11 {
        Err(CliError::NotEnoughParameters)
    } else if decimal(args, m + 8) is None {
        Err(CliError::InvalidNumber { field: Field::License, index: (m + 8) as usize })
    } else if hexadecimal(args, m + 9) is None {
        Err(CliError::InvalidNumber { field: Field::Type, index: (m + 9) as usize })
    } else if !(1 <= decimal(args, m + 8)->Some_0 <= 3) || !content_id_fits(
        args[(m + 10) as int],
    ) {
        Err(CliError::InvalidFinalizedParameters)
    } else {
        match klic_planned(args, m + 11, m + 12) {
            Err(e) => Err(e),
            Ok((klic, taken)) => Ok(
                Some(
                    EncryptPlan {
                        content_id: Some((m + 10) as usize),
                        klic,
                        rap: optional(
                            args,
                            if taken {
                                m + 13
                            } else {
                                m + 12
                            },
                        ),
                        license: decimal(args, m + 8)->Some_0 as u32,
                        npd_type: as_word(hexadecimal(args, m + 9)->Some_0),
                        ..plan
                    },
                ),
            ),
        }
    }
}

/// What the fields of the older encryption syntax must hold.
pub open spec fn v12_in_range(
    version: int,
    license: int,
    format: int,
    block: int,
    compression: int,
    content_id: Seq<char>,
) -> bool {
    1 <= version <= 4 && 0 <= license <= 3 && 0 <= format <= 1 && (block == 16 || block == 32) && 0
        <= compression <= 1 && content_id_fits(content_id)
}

/// What the older encryption syntax asks for. None for the usage text. It
/// makes finalized containers only.
pub open spec fn v12_plan(args: Seq<Seq<char>>, m: nat) -> Result<Option<EncryptPlan>, CliError> {
    if args.len() <= m + 10 {
        Ok(None)
    } else if first_bad(args, m + 3, v12_fields()) is Some {
        Err(first_bad(args, m + 3, v12_fields())->Some_0)
    } else if !v12_in_range(
        decimal(args, m + 3)->Some_0,
        decimal(args, m + 4)->Some_0,
        decimal(args, m + 6)->Some_0,
        decimal(args, m + 7)->Some_0,
        decimal(args, m + 8)->Some_0,
        args[(m + 9) as int],
    ) {
        Err(CliError::InvalidParameters)
    } else if decimal(args, m + 10) is None {
        Err(CliError::InvalidNumber { field: Field::KeyMode, index: (m + 10) as usize })
    } else {
        match klic_choice(decimal(args, m + 10)->Some_0) {
            Err(e) => Err(e),
            Ok(klic) => Ok(
                Some(
                    EncryptPlan {
                        input: (m + 1) as usize,
                        output: (m + 2) as usize,
                        content_id: Some((m + 9) as usize),
                        klic,
                        rap: optional(args, m + 11),
                        version: decimal(args, m + 3)->Some_0 as u32,
                        license: decimal(args, m + 4)->Some_0 as u32,
                        npd_type: as_word(decimal(args, m + 5)->Some_0),
                        block_kb: decimal(args, m + 7)->Some_0 as u32,
                        use_compression: decimal(args, m + 8)->Some_0 != 0,
                        is_edat: decimal(args, m + 6)->Some_0 == 0,
                        is_finalized: true,
                    },
                ),
            ),
        }
    }
}

/// What a decryption asks for. None for the usage text.
pub open spec fn decrypt_plan(args: Seq<Seq<char>>, m: nat) -> Result<
    Option<DecryptPlan>,
    CliError,
> {
    if args.len() <= m + 3 {
        Ok(None)
    } else {
        match klic_planned(args, m + 3, m + 4) {
            Err(e) => Err(e),
            Ok((klic, taken)) => Ok(
                Some(
                    DecryptPlan {
                        input: (m + 1) as usize,
                        output: (m + 2) as usize,
                        klic,
                        rap: optional(
                            args,
                            if taken {
                                m + 5
                            } else {
                                m + 4
                            },
                        ),
                    },
                ),
            ),
        }
    }
}

/// How a brute-force mode says that klicensees are written.
pub open spec fn source_mode(mode: int) -> Option<SourceMode> {
    if mode == 0 {
        Some(SourceMode::Binary)
    } else if mode == 1 {
        Some(SourceMode::Text)
    } else if mode == 2 {
        Some(SourceMode::UnicodeText)
    } else {
        None
    }
}

/// What a search asks for. None for the usage text.
pub open spec fn bruteforce_plan(args: Seq<Seq<char>>, m: nat) -> Result<
    Option<BruteForcePlan>,
    CliError,
> {
    if args.len() <= m + 2 {
        Ok(None)
    } else if args.len() > m + 3 && decimal(args, m + 3) is None {
        Err(CliError::InvalidNumber { field: Field::BruteForceMode, index: (m + 3) as usize })
    } else {
        let mode = if args.len() > m + 3 {
            decimal(args, m + 3)->Some_0
        } else {
            0
        };
        match source_mode(mode) {
            None => Err(CliError::InvalidParameters),
            Some(mode) => Ok(
                Some(
                    BruteForcePlan { input: (m + 1) as usize, source: (m + 2) as usize, mode },
                ),
            ),
        }
    }
}

/// What a command line asks for. The first argument is the program's name.
pub open spec fn command(args: Seq<Seq<char>>) -> Result<Command, CliError> {
    if args.len() == 3 && args[1] == "info"@ {
        Ok(Command::Info { path: 2 })
    } else if args.len() == 3 && args[1] == "rap2rif"@ {
        Ok(Command::Rap2Rif { path: 2 })
    } else {
        let verbose = args.len() > 1 && args[1] == "-v"@;
        let m: nat = if verbose {
            2
        } else {
            1
        };
        if args.len() <= m {
            Ok(Command::Usage)
        } else if args[m as int] == "-e"@ {
            match if is_v134(args, m) {
                v134_plan(args, m)
            } else {
                v12_plan(args, m)
            } {
                Err(e) => Err(e),
                Ok(None) => Ok(Command::Usage),
                Ok(Some(plan)) => Ok(Command::Encrypt { making: plan, verbose }),
            }
        } else if args[m as int] == "-d"@ {
            match decrypt_plan(args, m) {
                Err(e) => Err(e),
                Ok(None) => Ok(Command::Usage),
                Ok(Some(plan)) => Ok(Command::Decrypt { extracting: plan, verbose }),
            }
        } else if args[m as int] == "-b"@ {
            match bruteforce_plan(args, m) {
                Err(e) => Err(e),
                Ok(None) => Ok(Command::Usage),
                Ok(Some(plan)) => Ok(Command::BruteForce { searching: plan, verbose }),
            }
        } else {
            Ok(Command::Usage)
        }
    }
}

/// Only the arguments of the fields matter to them.
proof fn lemma_first_bad_local(
    a: Seq<Seq<char>>,
    b: Seq<Seq<char>>,
    from: nat,
    fields: Seq<Field>,
)
    requires
        forall|i: int| from <= i < from + fields.len() ==> #[trigger] a[i] == b[i],
    ensures
        first_bad(a, from, fields) == first_bad(b, from, fields),
    decreases fields.len(),
{
    if fields.len() > 0 {
        assert(a[from as int] == b[from as int]);
        lemma_first_bad_local(a, b, from + 1, fields.skip(1));
    }
}

/// The current syntax makes a debug or SDAT container whatever arguments follow
/// the block size.
pub proof fn law_trailing_ignored(args: Seq<Seq<char>>, m: nat)
    requires
        is_v134(args, m),
        decimal(args, m + 3) == Some(0int) || decimal(args, m + 4) == Some(0int),
    ensures
        v134_plan(args, m) == v134_plan(args.take((m + 8) as int), m),
        v134_plan(args, m) matches Ok(Some(_)),
{
    let short = args.take((m + 8) as int);
    lemma_first_bad_local(args, short, m + 3, v134_fields());
}

/// Whether digits, in either case, write a number: the last one its remainder,
/// and those before it its quotient.
pub open spec fn writes_number(radix: nat, digits: Seq<u32>, n: nat) -> bool
    decreases digits.len(),
{
    &&& digits.len() > 0
    &&& util::writes_digit(digits.last(), (n % radix) as int)
    &&& if digits.len() == 1 {
        n < radix
    } else {
        writes_number(radix, digits.drop_last(), n / radix)
    }
}

proof fn lemma_last_digit(radix: nat, before: nat, d: nat)
    requires
        2 <= radix <= 16,
        d < radix,
    ensures
        (before * radix + d) % radix == d,
        (before * radix + d) / radix == before,
{
    vstd::arithmetic::div_mod::lemma_fundamental_div_mod_converse(
        (before * radix + d) as int,
        radix as int,
        before as int,
        d as int,
    );
}

proof fn lemma_writes_number(radix: nat, digits: Seq<u32>, n: nat)
    requires
        2 <= radix <= 16,
    ensures
        writes_number(radix, digits, n) <==> are_digits(radix, digits) && digits_value(radix, digits)
            == n,
    decreases digits.len(),
{
    if digits.len() > 0 {
        let rest = digits.drop_last();
        let last = digits.last();
        vstd::arithmetic::div_mod::lemma_fundamental_div_mod(n as int, radix as int);
        assert(n / radix * radix == radix * (n / radix)) by (nonlinear_arith);
        assert(n % radix < radix);
        lemma_writes_number(radix, rest, n / radix);
        if writes_number(radix, digits, n) {
            assert(util::hex_value(last) == Some((n % radix) as u8));
            assert forall|i: int| 0 <= i < digits.len() implies (util::hex_value(
                #[trigger] digits[i],
            ) matches Some(d) && d < radix) by {
                if i < digits.len() - 1 {
                    assert(rest[i] == digits[i]);
                }
            }
            if digits.len() == 1 {
                assert(digits_value(radix, rest) == 0);
                vstd::arithmetic::div_mod::lemma_small_mod(n, radix);
                assert(0 * radix == 0);
            }
        }
        if are_digits(radix, digits) && digits_value(radix, digits) == n {
            assert(util::hex_value(digits[digits.len() - 1]) is Some);
            let d = util::hex_value(last)->Some_0 as nat;
            lemma_last_digit(radix, digits_value(radix, rest), d);
            if digits.len() == 1 {
                assert(digits_value(radix, rest) == 0);
                assert(0 * radix == 0);
            } else {
                assert forall|i: int| 0 <= i < rest.len() implies (util::hex_value(
                    #[trigger] rest[i],
                ) matches Some(v) && v < radix) by {
                    assert(rest[i] == digits[i]);
                }
            }
        }
    }
}

/// A text is read as a number exactly where it writes that number: with a minus
/// sign the negative one, with a plus sign or none the other, if 32 bits hold it.
pub proof fn law_number_read(radix: nat, text: Seq<u32>, v: int)
    requires
        2 <= radix <= 16,
    ensures
        number(radix, text) == Some(v) <==> -0x8000_0000 <= v <= 0x7FFF_FFFF && (if text.len() > 0
            && text[0] == '-' as u32 {
            v <= 0 && writes_number(radix, text.skip(1), (-v) as nat)
        } else if text.len() > 0 && text[0] == '+' as u32 {
            v >= 0 && writes_number(radix, text.skip(1), v as nat)
        } else {
            v >= 0 && writes_number(radix, text, v as nat)
        }),
{
    if v >= 0 {
        lemma_writes_number(radix, text, v as nat);
        lemma_writes_number(radix, text.skip(1), v as nat);
    }
    if v <= 0 {
        lemma_writes_number(radix, text.skip(1), (-v) as nat);
    }
}

/// What each key mode names.
pub proof fn law_key_modes(mode: int)
    ensures
        klic_choice(mode) == if 0 <= mode <= 8 {
            Ok::<KlicSource, CliError>(
                seq![
                    KlicSource::Zero,
                    KlicSource::Omac1,
                    KlicSource::Omac2,
                    KlicSource::Omac3,
                    KlicSource::Klic,
                    KlicSource::Psx,
                    KlicSource::Psp1,
                    KlicSource::Psp2,
                    KlicSource::File,
                ][mode],
            )
        } else {
            Err(CliError::InvalidMode)
        },
{
}

/// Whether an argument is a key in hexadecimal.
pub open spec fn is_key(text: Seq<char>) -> bool {
    exists|key: Seq<u8>| util::writes_key(util::code_points(text), key)
}

/// A key after key mode 8 is taken as the klicensee, and moves what follows it.
pub proof fn law_key_argument(args: Seq<Seq<char>>, at: nat, next: nat, mode: int)
    requires
        decimal(args, at) == Some(mode),
        next <= usize::MAX,
    ensures
        mode == 8 && next < args.len() && is_key(args[next as int]) ==> klic_planned(args, at, next)
            == Ok::<(KlicSource, bool), CliError>((KlicSource::Hex { index: next as usize }, true)),
        !(mode == 8 && next < args.len() && is_key(args[next as int])) ==> match klic_planned(
            args,
            at,
            next,
        ) {
            Ok((klic, taken)) => !taken && klic_choice(mode) == Ok::<KlicSource, CliError>(klic),
            Err(e) => klic_choice(mode) == Err::<KlicSource, CliError>(e),
        },
{
    if next < args.len() {
        let points = util::code_points(args[next as int]);
        if is_key(args[next as int]) {
            let key = choose|key: Seq<u8>| util::writes_key(points, key);
            util::law_hex_key(points, key);
        } else if util::hex_key(points) is Some {
            let key = util::hex_key(points)->Some_0;
            util::law_hex_key(points, key);
        }
    }
}

proof fn lemma_all_numbers(args: Seq<Seq<char>>, from: nat, fields: Seq<Field>)
    ensures
        first_bad(args, from, fields) is None <==> forall|j: nat|
            from <= j < from + fields.len() ==> #[trigger] decimal(args, j) is Some,
    decreases fields.len(),
{
    if fields.len() > 0 {
        lemma_all_numbers(args, from + 1, fields.skip(1));
        if first_bad(args, from, fields) is None {
            assert forall|j: nat| from <= j < from + fields.len() implies #[trigger] decimal(
                args,
                j,
            ) is Some by {
                if j > from {
                    assert(from + 1 <= j < from + 1 + fields.skip(1).len());
                }
            }
        }
    }
}

proof fn lemma_fields_numbers(args: Seq<Seq<char>>, m: nat)
    ensures
        first_bad(args, m + 3, v134_fields()) is None <==> decimal(args, m + 3) is Some && decimal(
            args,
            m + 4,
        ) is Some && decimal(args, m + 5) is Some && decimal(args, m + 6) is Some && decimal(
            args,
            m + 7,
        ) is Some,
        first_bad(args, m + 3, v12_fields()) is None <==> decimal(args, m + 3) is Some && decimal(
            args,
            m + 4,
        ) is Some && decimal(args, m + 5) is Some && decimal(args, m + 6) is Some && decimal(
            args,
            m + 7,
        ) is Some && decimal(args, m + 8) is Some,
{
    lemma_all_numbers(args, m + 3, v134_fields());
    lemma_all_numbers(args, m + 3, v12_fields());
    assert(v134_fields().len() == 5);
    assert(v12_fields().len() == 6);
}

/// In the current syntax each argument decides one thing, whatever the others
/// are: a container is an EDAT exactly where the format is 1, finalized exactly
/// where the data is 1, and compressed exactly where the compression is 1; its
/// version and its block size are the numbers given.
pub proof fn law_current_syntax(
    args: Seq<Seq<char>>,
    m: nat,
    format: int,
    data: int,
    version: int,
    compression: int,
    block: int,
)
    requires
        1 <= m <= 2,
        args.len() > m + 7,
        decimal(args, m + 3) == Some(format),
        decimal(args, m + 4) == Some(data),
        decimal(args, m + 5) == Some(version),
        decimal(args, m + 6) == Some(compression),
        decimal(args, m + 7) == Some(block),
    ensures
        ({
            let known = (format == 0 || format == 1) && (data == 0 || data == 1) && (version == 1
                || version == 2 || version == 3 || version == 4) && (compression == 0 || compression
                == 1) && (block == 1 || block == 2 || block == 4 || block == 8 || block == 16
                || block == 32);
            &&& is_v134(args, m) == known
            &&& !known ==> v134_plan(args, m) == Err::<Option<EncryptPlan>, CliError>(
                CliError::InvalidParameters,
            )
            &&& known && (format == 0 || data == 0) ==> v134_plan(args, m) is Ok
            &&& v134_plan(args, m) matches Ok(found) ==> {
                &&& known
                &&& found matches Some(plan)
                &&& plan.input == m + 1
                &&& plan.output == m + 2
                &&& plan.is_edat <==> format == 1
                &&& plan.is_finalized <==> data == 1
                &&& plan.use_compression <==> compression == 1
                &&& plan.version == version
                &&& plan.block_kb == block
                &&& format == 0 || data == 0 ==> {
                    &&& plan.content_id is None
                    &&& plan.klic == KlicSource::Zero
                    &&& plan.rap is None
                    &&& plan.license == 0
                    &&& plan.npd_type == 0
                }
            }
        }),
{
    lemma_fields_numbers(args, m);
}

/// A finalized EDAT takes its license, its type, its content identifier and its
/// klicensee from the arguments that follow, and is refused where one is missing
/// or out of range.
pub proof fn law_finalized_edat(args: Seq<Seq<char>>, m: nat)
    requires
        1 <= m <= 2,
        is_v134(args, m),
        decimal(args, m + 3) == Some(1int),
        decimal(args, m + 4) == Some(1int),
    ensures
        ({
            let length = vstd::utf8::encode_utf8(args[(m + 10) as int]).len();
            if args.len() <= m + 11 {
                v134_plan(args, m) == Err::<Option<EncryptPlan>, CliError>(
                    CliError::NotEnoughParameters,
                )
            } else {
                match (decimal(args, m + 8), hexadecimal(args, m + 9)) {
                    (None, _) => v134_plan(args, m) == Err::<Option<EncryptPlan>, CliError>(
                        CliError::InvalidNumber { field: Field::License, index: (m + 8) as usize },
                    ),
                    (Some(_), None) => v134_plan(args, m) == Err::<Option<EncryptPlan>, CliError>(
                        CliError::InvalidNumber { field: Field::Type, index: (m + 9) as usize },
                    ),
                    (Some(license), Some(kind)) => if license < 1 || license > 3 || length == 0
                        || length > 48 {
                        v134_plan(args, m) == Err::<Option<EncryptPlan>, CliError>(
                            CliError::InvalidFinalizedParameters,
                        )
                    } else {
                        match klic_planned(args, m + 11, m + 12) {
                            Err(e) => v134_plan(args, m) == Err::<Option<EncryptPlan>, CliError>(e),
                            Ok((klic, taken)) => {
                                let after: nat = if taken {
                                    m + 13
                                } else {
                                    m + 12
                                };
                                &&& v134_plan(args, m) matches Ok(Some(plan))
                                &&& plan.license == license
                                &&& plan.npd_type == (if kind < 0 {
                                    kind + 0x1_0000_0000
                                } else {
                                    kind
                                })
                                &&& plan.content_id == Some((m + 10) as usize)
                                &&& plan.klic == klic
                                &&& plan.rap == if args.len() > after {
                                    Some(after as usize)
                                } else {
                                    None
                                }
                            },
                        }
                    },
                }
            }
        }),
{
    lemma_fields_numbers(args, m);
}

/// The older syntax makes finalized containers, EDAT where the format is 0, with
/// every number as it is given.
pub proof fn law_older_syntax(
    args: Seq<Seq<char>>,
    m: nat,
    version: int,
    license: int,
    kind: int,
    format: int,
    block: int,
    compression: int,
)
    requires
        1 <= m <= 2,
        args.len() > m + 10,
        decimal(args, m + 3) == Some(version),
        decimal(args, m + 4) == Some(license),
        decimal(args, m + 5) == Some(kind),
        decimal(args, m + 6) == Some(format),
        decimal(args, m + 7) == Some(block),
        decimal(args, m + 8) == Some(compression),
    ensures
        ({
            let length = vstd::utf8::encode_utf8(args[(m + 9) as int]).len();
            let known = (version == 1 || version == 2 || version == 3 || version == 4) && (license
                == 0 || license == 1 || license == 2 || license == 3) && (format == 0 || format
                == 1) && (block == 16 || block == 32) && (compression == 0 || compression == 1) && 1
                <= length <= 48;
            if !known {
                v12_plan(args, m) == Err::<Option<EncryptPlan>, CliError>(
                    CliError::InvalidParameters,
                )
            } else {
                match decimal(args, m + 10) {
                    None => v12_plan(args, m) == Err::<Option<EncryptPlan>, CliError>(
                        CliError::InvalidNumber { field: Field::KeyMode, index: (m + 10) as usize },
                    ),
                    Some(mode) => if mode < 0 || mode > 8 {
                        v12_plan(args, m) == Err::<Option<EncryptPlan>, CliError>(
                            CliError::InvalidMode,
                        )
                    } else {
                        &&& v12_plan(args, m) matches Ok(Some(plan))
                        &&& plan.input == m + 1
                        &&& plan.output == m + 2
                        &&& plan.content_id == Some((m + 9) as usize)
                        &&& klic_choice(mode) == Ok::<KlicSource, CliError>(plan.klic)
                        &&& plan.rap == if args.len() > m + 11 {
                            Some((m + 11) as usize)
                        } else {
                            None
                        }
                        &&& plan.version == version
                        &&& plan.license == license
                        &&& plan.npd_type == (if kind < 0 {
                            kind + 0x1_0000_0000
                        } else {
                            kind
                        })
                        &&& plan.block_kb == block
                        &&& plan.use_compression <==> compression == 1
                        &&& plan.is_edat <==> format == 0
                        &&& plan.is_finalized
                    },
                }
            }
        }),
{
    lemma_fields_numbers(args, m);
    lemma_number_bounds(10, util::code_points(args[(m + 5) as int]));
}

proof fn lemma_number_bounds(radix: nat, text: Seq<u32>)
    ensures
        number(radix, text) matches Some(v) ==> -0x8000_0000 <= v <= 0x7FFF_FFFF,
{
}

/// The first argument that is no number is the one that is refused.
pub proof fn law_first_bad(args: Seq<Seq<char>>, from: nat, fields: Seq<Field>, k: nat)
    requires
        k < fields.len(),
        from + fields.len() <= usize::MAX,
        forall|j: nat| from <= j < from + k ==> #[trigger] decimal(args, j) is Some,
        decimal(args, from + k) is None,
    ensures
        first_bad(args, from, fields) == Some(
            CliError::InvalidNumber { field: fields[k as int], index: (from + k) as usize },
        ),
    decreases k,
{
    if k > 0 {
        assert(decimal(args, from) is Some);
        assert(fields.skip(1)[k - 1] == fields[k as int]);
        law_first_bad(args, from + 1, fields.skip(1), (k - 1) as nat);
    }
}

/// The order of the arguments in the two syntaxes.
pub proof fn law_field_order(args: Seq<Seq<char>>, m: nat, k: nat)
    requires
        1 <= m <= 2,
        forall|j: nat| m + 3 <= j < m + 3 + k ==> #[trigger] decimal(args, j) is Some,
        decimal(args, m + 3 + k) is None,
    ensures
        k < 5 && args.len() > m + 7 ==> v134_plan(args, m) == Err::<Option<EncryptPlan>, CliError>(
            CliError::InvalidNumber {
                field: if k == 0 {
                    Field::Format
                } else if k == 1 {
                    Field::Data
                } else if k == 2 {
                    Field::Version
                } else if k == 3 {
                    Field::Compression
                } else {
                    Field::Block
                },
                index: (m + 3 + k) as usize,
            },
        ),
        k < 6 && args.len() > m + 10 ==> v12_plan(args, m) == Err::<Option<EncryptPlan>, CliError>(
            CliError::InvalidNumber {
                field: if k == 0 {
                    Field::Version
                } else if k == 1 {
                    Field::License
                } else if k == 2 {
                    Field::Type
                } else if k == 3 {
                    Field::Format
                } else if k == 4 {
                    Field::Block
                } else {
                    Field::Compression
                },
                index: (m + 3 + k) as usize,
            },
        ),
{
    if k < 5 {
        law_first_bad(args, m + 3, v134_fields(), k);
    }
    if k < 6 {
        law_first_bad(args, m + 3, v12_fields(), k);
    }
}

/// A decryption names the container, the payload and the klicensee, and then a
/// RAP or RIF file, if there is one. A search names the container and the source,
/// and then how the source is written, as bytes if nothing is said.
pub proof fn law_other_syntaxes(args: Seq<Seq<char>>, m: nat)
    requires
        1 <= m <= 2,
    ensures
        args.len() <= m + 3 ==> decrypt_plan(args, m) == Ok::<Option<DecryptPlan>, CliError>(None),
        args.len() > m + 3 ==> match klic_planned(args, m + 3, m + 4) {
            Err(e) => decrypt_plan(args, m) == Err::<Option<DecryptPlan>, CliError>(e),
            Ok((klic, taken)) => {
                let after: nat = if taken {
                    m + 5
                } else {
                    m + 4
                };
                &&& decrypt_plan(args, m) matches Ok(Some(plan))
                &&& plan.input == m + 1
                &&& plan.output == m + 2
                &&& plan.klic == klic
                &&& plan.rap == if args.len() > after {
                    Some(after as usize)
                } else {
                    None
                }
            },
        },
        args.len() <= m + 2 ==> bruteforce_plan(args, m) == Ok::<Option<BruteForcePlan>, CliError>(
            None,
        ),
        args.len() > m + 2 ==> ({
            let said = if args.len() > m + 3 {
                decimal(args, m + 3)
            } else {
                Some(0int)
            };
            match said {
                None => bruteforce_plan(args, m) == Err::<Option<BruteForcePlan>, CliError>(
                    CliError::InvalidNumber {
                        field: Field::BruteForceMode,
                        index: (m + 3) as usize,
                    },
                ),
                Some(mode) => if mode < 0 || mode > 2 {
                    bruteforce_plan(args, m) == Err::<Option<BruteForcePlan>, CliError>(
                        CliError::InvalidParameters,
                    )
                } else {
                    &&& bruteforce_plan(args, m) matches Ok(Some(plan))
                    &&& plan.input == m + 1
                    &&& plan.source == m + 2
                    &&& plan.mode == seq![
                        SourceMode::Binary,
                        SourceMode::Text,
                        SourceMode::UnicodeText,
                    ][mode]
                },
            }
        }),
{
}

/// Whether an encryption has too few arguments is decided by their number alone.
pub proof fn law_too_few_arguments(args: Seq<Seq<char>>, m: nat)
    ensures
        v134_plan(args, m) == Ok::<Option<EncryptPlan>, CliError>(None) <==> args.len() <= m + 7,
        v12_plan(args, m) == Ok::<Option<EncryptPlan>, CliError>(None) <==> args.len() <= m + 10,
{
}

/// What the first arguments choose: `info` and `rap2rif` stand before one file;
/// `-v` comes first where more is to be said; then `-e` encrypts, in the current
/// syntax where the arguments fit it and else in the older one, `-d` decrypts and
/// `-b` searches. Anything else asks for the usage text.
#[verifier::rlimit(60)]
pub proof fn law_command_words(args: Seq<Seq<char>>)
    ensures
        ({
            let verbose = args.len() > 1 && args[1] == seq!['-', 'v'];
            let m: nat = if verbose {
                2
            } else {
                1
            };
            if args.len() == 3 && args[1] == seq!['i', 'n', 'f', 'o'] {
                command(args) == Ok::<Command, CliError>(Command::Info { path: 2 })
            } else if args.len() == 3 && args[1] == seq!['r', 'a', 'p', '2', 'r', 'i', 'f'] {
                command(args) == Ok::<Command, CliError>(Command::Rap2Rif { path: 2 })
            } else if args.len() > m && args[m as int] == seq!['-', 'e'] {
                match if is_v134(args, m) {
                    v134_plan(args, m)
                } else {
                    v12_plan(args, m)
                } {
                    Err(e) => command(args) == Err::<Command, CliError>(e),
                    Ok(None) => command(args) == Ok::<Command, CliError>(Command::Usage),
                    Ok(Some(plan)) => command(args) == Ok::<Command, CliError>(
                        Command::Encrypt { making: plan, verbose },
                    ),
                }
            } else if args.len() > m && args[m as int] == seq!['-', 'd'] {
                match decrypt_plan(args, m) {
                    Err(e) => command(args) == Err::<Command, CliError>(e),
                    Ok(None) => command(args) == Ok::<Command, CliError>(Command::Usage),
                    Ok(Some(plan)) => command(args) == Ok::<Command, CliError>(
                        Command::Decrypt { extracting: plan, verbose },
                    ),
                }
            } else if args.len() > m && args[m as int] == seq!['-', 'b'] {
                match bruteforce_plan(args, m) {
                    Err(e) => command(args) == Err::<Command, CliError>(e),
                    Ok(None) => command(args) == Ok::<Command, CliError>(Command::Usage),
                    Ok(Some(plan)) => command(args) == Ok::<Command, CliError>(
                        Command::BruteForce { searching: plan, verbose },
                    ),
                }
            } else {
                command(args) == Ok::<Command, CliError>(Command::Usage)
            }
        }),
{
    reveal_strlit("info");
    reveal_strlit("rap2rif");
    reveal_strlit("-v");
    reveal_strlit("-e");
    reveal_strlit("-d");
    reveal_strlit("-b");
    assert("info"@ =~= seq!['i', 'n', 'f', 'o']);
    assert("rap2rif"@ =~= seq!['r', 'a', 'p', '2', 'r', 'i', 'f']);
    assert("-v"@ =~= seq!['-', 'v']);
    assert("-e"@ =~= seq!['-', 'e']);
    assert("-d"@ =~= seq!['-', 'd']);
    assert("-b"@ =~= seq!['-', 'b']);
    assert("-e"@[1] != "-d"@[1] && "-e"@[1] != "-b"@[1] && "-d"@[1] != "-b"@[1]);
}

/// Where the klicensee comes from, and whether the argument at `next_index` was
/// taken for it.
pub fn select_devklic_with_optional_hex(args: &[String], mode_index: usize, next_index: usize) -> (r:
    Result<(KlicSource, bool), CliError>)
    requires
        mode_index < args@.len(),
    ensures
        r == klic_planned(texts(args@), mode_index as nat, next_index as nat),
{
    match parse_i32_arg(args[mode_index].as_str()) {
        None => Err(CliError::InvalidNumber { field: Field::KeyMode, index: mode_index }),
        Some(mode) => {
            if mode == 8 && next_index < args.len() && is_hex_32(args[next_index].as_str()) {
                return Ok((KlicSource::Hex { index: next_index }, true));
            }
            match select_devklic(mode) {
                Ok(klic) => Ok((klic, false)),
                Err(e) => Err(e),
            }
        },
    }
}

/// The klicensee that a key mode names.
pub fn select_devklic(key_mode: i32) -> (r: Result<KlicSource, CliError>)
    ensures
        r == klic_choice(key_mode as int),
{
    match key_mode {
        0 => Ok(KlicSource::Zero),
        1 => Ok(KlicSource::Omac1),
        2 => Ok(KlicSource::Omac2),
        3 => Ok(KlicSource::Omac3),
        4 => Ok(KlicSource::Klic),
        5 => Ok(KlicSource::Psx),
        6 => Ok(KlicSource::Psp1),
        7 => Ok(KlicSource::Psp2),
        8 => Ok(KlicSource::File),
        _ => Err(CliError::InvalidMode),
    }
}

/// The klicensee itself. None where it lies in a file, and where the argument
/// that should hold it is none or no key.
pub fn resolve_klic(keys: &KeySet, args: &[String], source: KlicSource) -> (r: Option<[u8; 16]>)
    ensures
        match source {
            KlicSource::Zero => r matches Some(k) && k@ == util::zeros(16),
            KlicSource::Omac1 => r == Some(keys.npdrm_omac_key_1),
            KlicSource::Omac2 => r == Some(keys.npdrm_omac_key_2),
            KlicSource::Omac3 => r == Some(keys.npdrm_omac_key_3),
            KlicSource::Klic => r == Some(keys.npdrm_klic_key),
            KlicSource::Psx => r == Some(keys.npdrm_psx_key),
            KlicSource::Psp1 => r == Some(keys.npdrm_psp_key_1),
            KlicSource::Psp2 => r == Some(keys.npdrm_psp_key_2),
            KlicSource::File => r is None,
            KlicSource::Hex { index } => match r {
                Some(k) => index < args@.len() && util::hex_key(
                    util::code_points(args@[index as int]@),
                ) == Some(k@),
                None => index >= args@.len() || util::hex_key(
                    util::code_points(args@[index as int]@),
                ) is None,
            },
        },
{
    match source {
        KlicSource::Zero => {
            let zero: [u8; 16] = [0u8; 16];
            assert(zero@ =~= util::zeros(16));
            Some(zero)
        },
        KlicSource::Omac1 => Some(keys.npdrm_omac_key_1),
        KlicSource::Omac2 => Some(keys.npdrm_omac_key_2),
        KlicSource::Omac3 => Some(keys.npdrm_omac_key_3),
        KlicSource::Klic => Some(keys.npdrm_klic_key),
        KlicSource::Psx => Some(keys.npdrm_psx_key),
        KlicSource::Psp1 => Some(keys.npdrm_psp_key_1),
        KlicSource::Psp2 => Some(keys.npdrm_psp_key_2),
        KlicSource::File => None,
        KlicSource::Hex { index } => {
            if index >= args.len() {
                return None;
            }
            match hex_16(args[index].as_str()) {
                Ok(key) => Some(key),
                Err(_) => None,
            }
        },
    }
}

/// Whether there are more than `n` arguments from `from` on, not counting the
/// first.
fn has_more(args: &[String], from: usize, n: usize) -> (yes: bool)
    ensures
        yes == (args@.len() > from + n),
        args@.len() <= usize::MAX,
{
    from < args.len() && n < args.len() - from
}

/// Reads one decimal number for each field.
fn parse_numbers(args: &[String], from: usize, fields: &[Field]) -> (r: Result<Vec<i32>, CliError>)
    requires
        from + fields@.len() <= args.len(),
    ensures
        match r {
            Ok(v) => {
                &&& first_bad(texts(args@), from as nat, fields@) is None
                &&& v@.len() == fields@.len()
                &&& forall|k: int|
                    0 <= k < v@.len() ==> decimal(texts(args@), (from + k) as nat) == Some(
                        #[trigger] v@[k] as int,
                    )
            },
            Err(e) => first_bad(texts(args@), from as nat, fields@) == Some(e),
        },
{
    let mut v: Vec<i32> = Vec::new();
    let mut i: usize = 0;
    assert(fields@.skip(0) =~= fields@);
    while i < fields.len()
        invariant
            i <= fields@.len(),
            from + fields@.len() <= args.len(),
            v@.len() == i,
            forall|k: int|
                0 <= k < i ==> decimal(texts(args@), (from + k) as nat) == Some(
                    #[trigger] v@[k] as int,
                ),
            first_bad(texts(args@), from as nat, fields@) == first_bad(
                texts(args@),
                (from + i) as nat,
                fields@.skip(i as int),
            ),
        decreases fields@.len() - i,
    {
        let ghost rest = fields@.skip(i as int);
        assert(rest.skip(1) =~= fields@.skip(i + 1));
        match parse_i32_arg(args[from + i].as_str()) {
            Some(n) => {
                v.push(n);
            },
            None => {
                return Err(CliError::InvalidNumber { field: fields[i], index: from + i });
            },
        }
        i = i + 1;
    }
    Ok(v)
}

/// Whether a block size is offered.
pub fn valid_v134_block(block: i32) -> (ok: bool)
    ensures
        ok == block_offered(block as int),
{
    block == 1 || block == 2 || block == 4 || block == 8 || block == 16 || block == 32
}

/// Whether a content identifier has 1 to 48 bytes.
fn valid_content_id(text: &str) -> (ok: bool)
    ensures
        ok == content_id_fits(text@),
{
    let n: usize = text.as_bytes().len();
    1 <= n && n <= 0x30
}

/// Whether the numbers of the current encryption syntax are in range.
fn valid_v134(v: &Vec<i32>) -> (ok: bool)
    requires
        v@.len() == 5,
    ensures
        ok == v134_in_range(
            v@[0] as int,
            v@[1] as int,
            v@[2] as int,
            v@[3] as int,
            v@[4] as int,
        ),
{
    0 <= v[0] && v[0] <= 1 && 0 <= v[1] && v[1] <= 1 && 1 <= v[2] && v[2] <= 4 && 0 <= v[3] && v[3]
        <= 1 && valid_v134_block(v[4])
}

/// The numbers of the current encryption syntax.
fn parse_v134(args: &[String], mode_index: usize) -> (r: Result<Vec<i32>, CliError>)
    requires
        mode_index + 7 < args.len(),
    ensures
        match r {
            Ok(v) => {
                let t = texts(args@);
                let m = mode_index as nat;
                &&& first_bad(t, m + 3, v134_fields()) is None
                &&& v@.len() == 5
                &&& decimal(t, m + 3) == Some(v@[0] as int)
                &&& decimal(t, m + 4) == Some(v@[1] as int)
                &&& decimal(t, m + 5) == Some(v@[2] as int)
                &&& decimal(t, m + 6) == Some(v@[3] as int)
                &&& decimal(t, m + 7) == Some(v@[4] as int)
            },
            Err(e) => first_bad(texts(args@), mode_index as nat + 3, v134_fields()) == Some(e),
        },
{
    let fields: [Field; 5] = [
        Field::Format,
        Field::Data,
        Field::Version,
        Field::Compression,
        Field::Block,
    ];
    assert(fields@ =~= v134_fields());
    match parse_numbers(args, mode_index + 3, &fields) {
        Ok(v) => {
            proof {
                let t = texts(args@);
                let m = mode_index as nat;
                assert(decimal(t, m + 3) == Some(v@[0] as int));
                assert(decimal(t, m + 4) == Some(v@[1] as int));
                assert(decimal(t, m + 5) == Some(v@[2] as int));
                assert(decimal(t, m + 6) == Some(v@[3] as int));
                assert(decimal(t, m + 7) == Some(v@[4] as int));
            }
            Ok(v)
        },
        Err(e) => Err(e),
    }
}

/// Whether the arguments follow the current encryption syntax.
pub fn looks_like_v134_encrypt(args: &[String], mode_index: usize) -> (yes: bool)
    ensures
        yes == is_v134(texts(args@), mode_index as nat),
{
    if !has_more(args, mode_index, 7) {
        return false;
    }
    match parse_v134(args, mode_index) {
        Ok(v) => valid_v134(&v),
        Err(_) => false,
    }
}

/// The word that holds a 32-bit number.
fn to_word(v: i32) -> (w: u32)
    ensures
        w == as_word(v as int),
{
    if v < 0 {
        (v as i64 + 0x1_0000_0000) as u32
    } else {
        v as u32
    }
}

/// What the current encryption syntax asks for. None for the usage text.
pub fn plan_encrypt_v134(args: &[String], mode_index: usize) -> (r: Result<
    Option<EncryptPlan>,
    CliError,
>)
    ensures
        r == v134_plan(texts(args@), mode_index as nat),
{
    if !has_more(args, mode_index, 7) {
        return Ok(None);
    }
    let v: Vec<i32> = match parse_v134(args, mode_index) {
        Ok(v) => v,
        Err(e) => {
            return Err(e);
        },
    };
    if !valid_v134(&v) {
        return Err(CliError::InvalidParameters);
    }
    let plan = EncryptPlan {
        input: mode_index + 1,
        output: mode_index + 2,
        content_id: None,
        klic: KlicSource::Zero,
        rap: None,
        version: v[2] as u32,
        license: 0,
        npd_type: 0,
        block_kb: v[4] as u32,
        use_compression: v[3] != 0,
        is_edat: v[0] != 0,
        is_finalized: v[1] != 0,
    };
    if plan.is_edat && plan.is_finalized {
        plan_finalized(args, mode_index, plan)
    } else {
        Ok(Some(plan))
    }
}

/// What the current encryption syntax asks for where it makes a finalized EDAT.
fn plan_finalized(args: &[String], mode_index: usize, plan: EncryptPlan) -> (r: Result<
    Option<EncryptPlan>,
    CliError,
>)
    ensures
        r == finalized_plan(texts(args@), mode_index as nat, plan),
{
    if !has_more(args, mode_index, 11) {
        return Err(CliError::NotEnoughParameters);
    }
    let license: i32 = match parse_i32_arg(args[mode_index + 8].as_str()) {
        Some(license) => license,
        None => {
            return Err(
                CliError::InvalidNumber { field: Field::License, index: mode_index + 8 },
            );
        },
    };
    let npd_type: i32 = match parse_hex_i32_arg(args[mode_index + 9].as_str()) {
        Some(npd_type) => npd_type,
        None => {
            return Err(CliError::InvalidNumber { field: Field::Type, index: mode_index + 9 });
        },
    };
    if !(1 <= license && license <= 3) || !valid_content_id(args[mode_index + 10].as_str()) {
        return Err(CliError::InvalidFinalizedParameters);
    }
    match select_devklic_with_optional_hex(args, mode_index + 11, mode_index + 12) {
        Ok((klic, taken)) => {
            let at: usize = if taken {
                mode_index + 13
            } else {
                mode_index + 12
            };
            Ok(
                Some(
                    EncryptPlan {
                        content_id: Some(mode_index + 10),
                        klic,
                        rap: optional_arg(args, at),
                        license: license as u32,
                        npd_type: to_word(npd_type),
                        ..plan
                    },
                ),
            )
        },
        Err(e) => Err(e),
    }
}

/// An argument that may be missing.
fn optional_arg(args: &[String], i: usize) -> (r: Option<usize>)
    ensures
        r == optional(texts(args@), i as nat),
{
    if i < args.len() {
        Some(i)
    } else {
        None
    }
}

/// Whether the numbers and the content identifier of the older encryption
/// syntax are in range.
pub fn validate_encrypt_args_v12(
    version: i32,
    license: i32,
    edat_format: i32,
    block: i32,
    compression: i32,
    content_id: &str,
) -> (r: Result<(), CliError>)
    ensures
        r is Ok <==> v12_in_range(
            version as int,
            license as int,
            edat_format as int,
            block as int,
            compression as int,
            content_id@,
        ),
        r matches Err(e) ==> e == CliError::InvalidParameters,
{
    if 1 <= version && version <= 4 && 0 <= license && license <= 3 && 0 <= edat_format
        && edat_format <= 1 && (block == 16 || block == 32) && 0 <= compression && compression <= 1
        && valid_content_id(content_id) {
        Ok(())
    } else {
        Err(CliError::InvalidParameters)
    }
}

/// The numbers of the older encryption syntax.
fn parse_v12(args: &[String], mode_index: usize) -> (r: Result<Vec<i32>, CliError>)
    requires
        mode_index + 10 < args.len(),
    ensures
        match r {
            Ok(v) => {
                let t = texts(args@);
                let m = mode_index as nat;
                &&& first_bad(t, m + 3, v12_fields()) is None
                &&& v@.len() == 6
                &&& decimal(t, m + 3) == Some(v@[0] as int)
                &&& decimal(t, m + 4) == Some(v@[1] as int)
                &&& decimal(t, m + 5) == Some(v@[2] as int)
                &&& decimal(t, m + 6) == Some(v@[3] as int)
                &&& decimal(t, m + 7) == Some(v@[4] as int)
                &&& decimal(t, m + 8) == Some(v@[5] as int)
            },
            Err(e) => first_bad(texts(args@), mode_index as nat + 3, v12_fields()) == Some(e),
        },
{
    let fields: [Field; 6] = [
        Field::Version,
        Field::License,
        Field::Type,
        Field::Format,
        Field::Block,
        Field::Compression,
    ];
    assert(fields@ =~= v12_fields());
    match parse_numbers(args, mode_index + 3, &fields) {
        Ok(v) => {
            proof {
                let t = texts(args@);
                let m = mode_index as nat;
                assert(decimal(t, m + 3) == Some(v@[0] as int));
                assert(decimal(t, m + 4) == Some(v@[1] as int));
                assert(decimal(t, m + 5) == Some(v@[2] as int));
                assert(decimal(t, m + 6) == Some(v@[3] as int));
                assert(decimal(t, m + 7) == Some(v@[4] as int));
                assert(decimal(t, m + 8) == Some(v@[5] as int));
            }
            Ok(v)
        },
        Err(e) => Err(e),
    }
}

/// What the older encryption syntax asks for. None for the usage text.
pub fn plan_encrypt_v12(args: &[String], mode_index: usize) -> (r: Result<
    Option<EncryptPlan>,
    CliError,
>)
    ensures
        r == v12_plan(texts(args@), mode_index as nat),
{
    if !has_more(args, mode_index, 10) {
        return Ok(None);
    }
    let v: Vec<i32> = match parse_v12(args, mode_index) {
        Ok(v) => v,
        Err(e) => {
            return Err(e);
        },
    };
    match validate_encrypt_args_v12(
        v[0],
        v[1],
        v[3],
        v[4],
        v[5],
        args[mode_index + 9].as_str(),
    ) {
        Ok(()) => {},
        Err(e) => {
            return Err(e);
        },
    }
    let key_mode: i32 = match parse_i32_arg(args[mode_index + 10].as_str()) {
        Some(key_mode) => key_mode,
        None => {
            return Err(
                CliError::InvalidNumber { field: Field::KeyMode, index: mode_index + 10 },
            );
        },
    };
    match select_devklic(key_mode) {
        Ok(klic) => Ok(
            Some(
                EncryptPlan {
                    input: mode_index + 1,
                    output: mode_index + 2,
                    content_id: Some(mode_index + 9),
                    klic,
                    rap: optional_arg(args, mode_index + 11),
                    version: v[0] as u32,
                    license: v[1] as u32,
                    npd_type: to_word(v[2]),
                    block_kb: v[4] as u32,
                    use_compression: v[5] != 0,
                    is_edat: v[3] == 0,
                    is_finalized: true,
                },
            ),
        ),
        Err(e) => Err(e),
    }
}

/// What an encryption asks for, in either syntax. None for the usage text.
pub fn plan_encrypt(args: &[String], mode_index: usize) -> (r: Result<
    Option<EncryptPlan>,
    CliError,
>)
    ensures
        r == (if is_v134(texts(args@), mode_index as nat) {
            v134_plan(texts(args@), mode_index as nat)
        } else {
            v12_plan(texts(args@), mode_index as nat)
        }),
{
    if looks_like_v134_encrypt(args, mode_index) {
        plan_encrypt_v134(args, mode_index)
    } else {
        plan_encrypt_v12(args, mode_index)
    }
}

/// What a decryption asks for. None for the usage text.
pub fn plan_decrypt(args: &[String], mode_index: usize) -> (r: Result<
    Option<DecryptPlan>,
    CliError,
>)
    ensures
        r == decrypt_plan(texts(args@), mode_index as nat),
{
    if !has_more(args, mode_index, 3) {
        return Ok(None);
    }
    match select_devklic_with_optional_hex(args, mode_index + 3, mode_index + 4) {
        Ok((klic, taken)) => {
            let at: usize = if taken {
                mode_index + 5
            } else {
                mode_index + 4
            };
            Ok(
                Some(
                    DecryptPlan {
                        input: mode_index + 1,
                        output: mode_index + 2,
                        klic,
                        rap: optional_arg(args, at),
                    },
                ),
            )
        },
        Err(e) => Err(e),
    }
}

/// What a search asks for. None for the usage text.
pub fn plan_bruteforce(args: &[String], mode_index: usize) -> (r: Result<
    Option<BruteForcePlan>,
    CliError,
>)
    ensures
        r == bruteforce_plan(texts(args@), mode_index as nat),
{
    if !has_more(args, mode_index, 2) {
        return Ok(None);
    }
    let mode: i32 = if has_more(args, mode_index, 3) {
        match parse_i32_arg(args[mode_index + 3].as_str()) {
            Some(mode) => mode,
            None => {
                return Err(
                    CliError::InvalidNumber {
                        field: Field::BruteForceMode,
                        index: mode_index + 3,
                    },
                );
            },
        }
    } else {
        0
    };
    let written: SourceMode = match mode {
        0 => SourceMode::Binary,
        1 => SourceMode::Text,
        2 => SourceMode::UnicodeText,
        _ => {
            return Err(CliError::InvalidParameters);
        },
    };
    Ok(Some(BruteForcePlan { input: mode_index + 1, source: mode_index + 2, mode: written }))
}

/// What a command line asks for. The first argument is the program's name.
pub fn plan_command(args: &[String]) -> (r: Result<Command, CliError>)
    ensures
        r == command(texts(args@)),
{
    if args.len() == 3 && same_text(args[1].as_str(), "info") {
        return Ok(Command::Info { path: 2 });
    }
    if args.len() == 3 && same_text(args[1].as_str(), "rap2rif") {
        return Ok(Command::Rap2Rif { path: 2 });
    }
    let verbose: bool = args.len() > 1 && same_text(args[1].as_str(), "-v");
    let mode_index: usize = if verbose {
        2
    } else {
        1
    };
    if args.len() <= mode_index {
        return Ok(Command::Usage);
    }
    let mode = args[mode_index].as_str();
    if same_text(mode, "-e") {
        match plan_encrypt(args, mode_index) {
            Ok(Some(making)) => Ok(Command::Encrypt { making, verbose }),
            Ok(None) => Ok(Command::Usage),
            Err(e) => Err(e),
        }
    } else if same_text(mode, "-d") {
        match plan_decrypt(args, mode_index) {
            Ok(Some(extracting)) => Ok(Command::Decrypt { extracting, verbose }),
            Ok(None) => Ok(Command::Usage),
            Err(e) => Err(e),
        }
    } else if same_text(mode, "-b") {
        match plan_bruteforce(args, mode_index) {
            Ok(Some(searching)) => Ok(Command::BruteForce { searching, verbose }),
            Ok(None) => Ok(Command::Usage),
            Err(e) => Err(e),
        }
    } else {
        Ok(Command::Usage)
    }
}

/// Every argument that a command names exists, and a container to be made has a
/// version from 1 to 4 and a block size that is offered.
pub proof fn law_command_in_range(args: Seq<Seq<char>>)
    requires
        args.len() <= usize::MAX,
    ensures
        match command(args) {
            Ok(Command::Info { path }) => path < args.len(),
            Ok(Command::Rap2Rif { path }) => path < args.len(),
            Ok(Command::Encrypt { making, .. }) => {
                &&& making.input < args.len()
                &&& making.output < args.len()
                &&& making.content_id matches Some(i) ==> i < args.len()
                &&& making.rap matches Some(i) ==> i < args.len()
                &&& 1 <= making.version <= 4
                &&& block_offered(making.block_kb as int)
                &&& making.license <= 3
            },
            Ok(Command::Decrypt { extracting, .. }) => {
                &&& extracting.input < args.len()
                &&& extracting.output < args.len()
                &&& extracting.rap matches Some(i) ==> i < args.len()
            },
            Ok(Command::BruteForce { searching, .. }) => {
                &&& searching.input < args.len()
                &&& searching.source < args.len()
            },
            _ => true,
        },
{
}

} // verus!
