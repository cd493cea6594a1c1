//! An assembler for the CHIP-8 virtual machine: a preprocessor that resolves
//! aliases, sprites, free-memory offsets and labels, and an encoder that turns
//! each resulting line into a 16-bit opcode.
use vstd::prelude::*;

pub mod assemble;
pub mod laws;
pub mod parse;
pub mod preprocess;
pub mod text;

use crate::assemble::{assemble_instruction, encode_line, AssembleError};
use crate::preprocess::{
    all_tokens, preprocess, preprocess_spec, texts, PreErrorView, PreprocessingError,
};
use crate::text::lemma_has_token;

verus! {

/// Where the assembly source is read from.
pub enum InputConfig {
    Stdin,
    File(String),
}

/// Where the assembled bytes are written to.
pub enum OutputConfig {
    Stdout,
    File(String),
}

/// The choices made for how the assembler is run.
pub struct Config {
    pub input_config: InputConfig,
    pub output_config: OutputConfig,
}

impl Config {
    /// The configuration for an optional input path and an optional output
    /// path; without a path the standard streams are used.
    pub fn make(input: Option<String>, output: Option<String>) -> (r: Config)
        ensures
            match input {
                Some(f) => r.input_config == InputConfig::File(f),
                None => r.input_config == InputConfig::Stdin,
            },
            match output {
                Some(f) => r.output_config == OutputConfig::File(f),
                None => r.output_config == OutputConfig::Stdout,
            },
    {
        let input_config = match input {
            Some(f) => InputConfig::File(f),
            None => InputConfig::Stdin,
        };
        let output_config = match output {
            Some(f) => OutputConfig::File(f),
            None => OutputConfig::Stdout,
        };
        Config { input_config, output_config }
    }
}

/// Relies on `std::io::Error` only as an opaque value that a failed read or
/// write hands back; the library never builds or inspects one.
#[verifier::external_type_specification]
#[verifier::external_body]
pub struct ExIoError(std::io::Error);

/// Why a run of the assembler failed.
#[derive(Debug)]
pub enum RunError {
    /// Reading the source or writing the output failed.
    IoError(std::io::Error),
    /// Preprocessing failed.
    Preprocessing(PreprocessingError),
    /// A line could not be encoded.
    Assemble(AssembleError),
}

/// The opcodes of the lines `ls`, or the error of the first line that does
/// not encode.
pub open spec fn opcodes_spec(ls: Seq<Seq<char>>) -> Result<Seq<u16>, AssembleError>
    decreases ls.len(),
{
    if ls.len() == 0 {
        Ok(seq![])
    } else {
        match opcodes_spec(ls.drop_last()) {
            Err(e) => Err(e),
            Ok(v) => match encode_line(ls.last()) {
                Ok(op) => Ok(v.push(op)),
                Err(e) => Err(e),
            },
        }
    }
}

proof fn lemma_opcodes_error_prefix(ls: Seq<Seq<char>>, k: int)
    requires
        0 <= k <= ls.len(),
        opcodes_spec(ls.take(k)) is Err,
    ensures
        opcodes_spec(ls) == opcodes_spec(ls.take(k)),
    decreases ls.len() - k,
{
    if k < ls.len() {
        assert(ls.take(k + 1).drop_last() =~= ls.take(k));
        lemma_opcodes_error_prefix(ls, k + 1);
    } else {
        assert(ls.take(k) =~= ls);
    }
}

/// Assembles source text into the opcode sequence, or the first error met:
/// a preprocessing error, else the error of the first line that does not
/// encode.
pub fn assemble_program(source: &str) -> (r: Result<Vec<u16>, RunError>)
    ensures
        match preprocess_spec(source@) {
            Err(e) => r is Err && r->Err_0 is Preprocessing && r->Err_0->Preprocessing_0@ == e,
            Ok(ls) => match opcodes_spec(ls) {
                Err(e) => r is Err && r->Err_0 == RunError::Assemble(e),
                Ok(ops) => r is Ok && r->Ok_0@ == ops,
            },
        },
{
    let lines = match preprocess(source) {
        Ok(l) => l,
        Err(e) => return Err(RunError::Preprocessing(e)),
    };
    let ghost ls = texts(lines@);
    assert(preprocess_spec(source@) == Ok::<Seq<Seq<char>>, PreErrorView>(ls));
    let mut ops: Vec<u16> = Vec::with_capacity(lines.len());
    let mut i: usize = 0;
    assert(ls.take(0) =~= seq![]);
    while i < lines.len()
        invariant
            i <= lines@.len(),
            ls == texts(lines@),
            preprocess_spec(source@) == Ok::<Seq<Seq<char>>, PreErrorView>(ls),
            all_tokens(ls),
            opcodes_spec(ls.take(i as int)) == Ok::<Seq<u16>, AssembleError>(ops@),
        decreases lines.len() - i,
    {
        assert(ls.take(i + 1).drop_last() =~= ls.take(i as int));
        assert(ls.take(i + 1).last() == ls[i as int]);
        proof {
            lemma_has_token(ls[i as int]);
        }
        match assemble_instruction(lines[i].as_str()) {
            Ok(op) => ops.push(op),
            Err(e) => {
                proof {
                    assert(opcodes_spec(ls.take(i + 1)) == Err::<Seq<u16>, AssembleError>(e));
                    lemma_opcodes_error_prefix(ls, i + 1);
                    assert(opcodes_spec(ls) == Err::<Seq<u16>, AssembleError>(e));
                }
                return Err(RunError::Assemble(e));
            },
        }
        i += 1;
    }
    assert(ls.take(i as int) =~= ls);
    Ok(ops)
}

/// Each opcode as two bytes, high byte first.
pub open spec fn be_bytes(ops: Seq<u16>) -> Seq<u8> {
    Seq::new(
        2 * ops.len(),
        |i: int| if i % 2 == 0 { (ops[i / 2] / 256) as u8 } else { (ops[i / 2] % 256) as u8 },
    )
}

/// Serializes opcodes into the bytes of a program image, each big-endian.
pub fn opcode_bytes(ops: &[u16]) -> (r: Vec<u8>)
    ensures
        r@ == be_bytes(ops@),
{
    let mut out: Vec<u8> = Vec::new();
    let mut i: usize = 0;
    while i < ops.len()
        invariant
            i <= ops@.len(),
            out@ == be_bytes(ops@.take(i as int)),
        decreases ops.len() - i,
    {
        let op = ops[i];
        out.push((op / 256) as u8);
        out.push((op % 256) as u8);
        i += 1;
        assert(out@ =~= be_bytes(ops@.take(i as int)));
    }
    assert(ops@.take(i as int) =~= ops@);
    out
}

} // verus!
