//! Platform-correct quoting of arbitrary text, so that it can be embedded as a
//! single literal argument in a shell command line.
//!
//! Two independent escapers are provided, one per platform convention:
//! * [`posix`] quotes a sequence of raw bytes with POSIX single-quote wrapping;
//! * [`windows`] quotes a sequence of 16-bit code units with double-quote
//!   wrapping and backslash-run doubling, the convention of the Microsoft C
//!   runtime's command-line parser.
//!
//! Both escapers are total over their input domain: malformed encodings
//! (invalid UTF-8 bytes, unpaired UTF-16 surrogates) pass through verbatim.
//! Each module also carries a model of the target platform's tokenizer and a
//! proof that escaping round-trips through it.

pub mod posix;
pub mod windows;
