//! The byte stream a tar archive is read from: the archive's own bytes, or
//! what its gzip or zstd compression decodes to, held to the load's budget.

use vstd::prelude::*;

use crate::archive::{is_window_log_max, window_log_max, ArchiveFormat, Expansion};
use crate::error::Error;
use crate::limits::Budget;

verus! {

/// The first `cap` bytes flate2's multi-member gzip decoder yields from
/// `bytes`, or `None` where the decoder fails before it has them.
pub uninterp spec fn gunzip_prefix(bytes: Seq<u8>, cap: u64) -> Option<Seq<u8>>;

/// flate2's `MultiGzDecoder` over `bytes`, read to its end or to `cap`
/// bytes, whichever comes first. Whether it succeeds and what it yields
/// depend on the bytes and the cap alone (the input is in memory), and what
/// it yields is never longer than the cap.
#[verifier::external_body]
fn gunzip_capped(bytes: &[u8], cap: u64) -> (decoded: Result<Vec<u8>, std::io::Error>)
    ensures
        match decoded {
            Ok(v) => gunzip_prefix(bytes@, cap) == Some(v@) && v@.len() <= cap,
            Err(_) => gunzip_prefix(bytes@, cap) is None,
        },
{
    let mut out = Vec::new();
    let decoder = flate2::read::MultiGzDecoder::new(bytes);
    std::io::Read::read_to_end(&mut std::io::Read::take(decoder, cap), &mut out).map(|_| out)
}

/// The first `cap` bytes zstd's streaming decoder yields from `bytes` with
/// its window capped at `2^window_log`, or `None` where the decoder fails
/// before it has them.
pub uninterp spec fn unzstd_prefix(bytes: Seq<u8>, window_log: u32, cap: u64) -> Option<Seq<u8>>;

/// zstd's streaming `Decoder` over `bytes`, its window capped at
/// `2^window_log` (`window_log_max`), read to its end or to `cap` bytes,
/// whichever comes first. Whether it succeeds and what it yields depend on
/// the bytes, the window and the cap alone (the input is in memory), and
/// what it yields is never longer than the cap.
#[verifier::external_body]
fn unzstd_capped(bytes: &[u8], window_log: u32, cap: u64) -> (decoded: Result<Vec<u8>, std::io::Error>)
    ensures
        match decoded {
            Ok(v) => unzstd_prefix(bytes@, window_log, cap) == Some(v@) && v@.len() <= cap,
            Err(_) => unzstd_prefix(bytes@, window_log, cap) is None,
        },
{
    let mut decoder = zstd::stream::read::Decoder::with_buffer(bytes)?;
    decoder.window_log_max(window_log)?;
    let mut out = Vec::new();
    std::io::Read::read_to_end(&mut std::io::Read::take(decoder, cap), &mut out).map(|_| out)
}

/// One byte past what is left of a budget, where a decoder read stops: a
/// read reaching it outgrew the budget.
pub open spec fn headroom(remaining: u64) -> u64 {
    if remaining == u64::MAX {
        u64::MAX
    } else {
        (remaining + 1) as u64
    }
}

/// Whether `stream` is what spending `budget` on `decoded` (a decoder's
/// output, or the error it failed with) answers: the bytes, spent, where
/// the budget covers them; the expansion outgrowing the load where it does
/// not; and a decode error otherwise.
pub open spec fn spent_on(
    e: Expansion,
    old_remaining: u64,
    limit: u64,
    new_remaining: u64,
    decoded: Option<Seq<u8>>,
    stream: Result<Vec<u8>, Error>,
) -> bool {
    match decoded {
        Some(d) => if d.len() <= old_remaining {
            stream matches Ok(v) && v@ == d && new_remaining == old_remaining - d.len()
        } else {
            stream matches Err(Error::ArchiveTooLarge { path, limit: l }) && path@ == e.source@
                && l == limit
        },
        None => stream matches Err(Error::ArchiveDecode { path, format, .. }) && path@ == e.source@
            && format == e.format,
    }
}

impl Expansion {
    /// The tar stream of the archive whose bytes are `bytes`: the bytes
    /// themselves for a plain tar, else what the format's decoder yields, at
    /// most one byte past what is left of `budget` (and, for zstd, with the
    /// window capped to what is left). The stream is spent from the budget;
    /// a stream the budget does not cover outgrows the load.
    pub fn tar_stream(&self, bytes: &[u8], budget: &mut Budget) -> (stream: Result<Vec<u8>, Error>)
        requires
            self.format != ArchiveFormat::Zip,
        ensures
            final(budget).spec_limit() == old(budget).spec_limit(),
            stream is Err ==> final(budget).spec_remaining() == old(budget).spec_remaining(),
            ({
                let r = old(budget).spec_remaining();
                let limit = old(budget).spec_limit();
                let cap = headroom(r);
                let after = final(budget).spec_remaining();
                match self.format {
                    ArchiveFormat::Tar => spent_on(*self, r, limit, after, Some(bytes@), stream),
                    ArchiveFormat::TarGz => spent_on(*self, r, limit, after, gunzip_prefix(bytes@, cap), stream),
                    _ => exists|w: u32|
                        is_window_log_max(r, w) && spent_on(
                            *self,
                            r,
                            limit,
                            after,
                            unzstd_prefix(bytes@, w, cap),
                            stream,
                        ),
                }
            }),
    {
        let remaining = budget.remaining();
        let cap = if remaining == u64::MAX {
            u64::MAX
        } else {
            remaining + 1
        };
        let decoded = match self.format {
            ArchiveFormat::Tar => Ok(vstd::slice::slice_to_vec(bytes)),
            ArchiveFormat::TarGz => gunzip_capped(bytes, cap),
            _ => {
                let window = window_log_max(remaining);
                let d = unzstd_capped(bytes, window, cap);
                assert(is_window_log_max(remaining, window));
                d
            },
        };
        match decoded {
            Ok(v) => {
                if (v.len() as u64) <= remaining && budget.spend(v.len() as u64) {
                    Ok(v)
                } else {
                    Err(self.too_large(budget))
                }
            },
            Err(e) => Err(Error::ArchiveDecode { path: self.source.clone(), format: self.format, source: e }),
        }
    }
}

} // verus!
