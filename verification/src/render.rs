//! QR rendering as an outside collaborator.
//!
//! Turning a chunk payload into a scannable image is an opaque codec call;
//! the library renders every chunk in production order and hands the SVG
//! texts back to the caller, which writes them to disk.

use vstd::prelude::*;

verus! {

/// The SVG text of the QR symbol that carries `payload`, or `None` where
/// the payload fits no QR symbol version.
pub uninterp spec fn qr_svg_of(payload: Seq<char>) -> Option<Seq<char>>;

/// A chunk payload that no QR symbol can carry.
#[derive(Debug, Clone, Copy, PartialEq, Eq)]
pub enum RenderError {
    Unencodable,
}

#[verifier::external_type_specification]
#[verifier::external_body]
pub struct ExQrError(qrcode::types::QrError);

/// Relies on qrcode's `QrCode::new` and its SVG renderer (200 to 400 px,
/// with quiet zone): one SVG image per payload, a pure function of the
/// payload; errs exactly where the payload fits no QR symbol.
#[verifier::external_body]
fn render_qr_svg(payload: &str) -> (r: Result<String, qrcode::types::QrError>)
    ensures
        r is Ok <==> qr_svg_of(payload@) is Some,
        r matches Ok(s) ==> Some(s@) == qr_svg_of(payload@),
{
    let code = qrcode::QrCode::new(payload.as_bytes())?;
    Ok(
        code.render::<qrcode::render::svg::Color>()
            .min_dimensions(200, 200)
            .max_dimensions(400, 400)
            .quiet_zone(true)
            .build(),
    )
}

/// Renders one SVG image per chunk, in production order; errs exactly when
/// some chunk fits no QR symbol.
pub fn render_chunks(chunks: &Vec<String>) -> (r: Result<Vec<String>, RenderError>)
    ensures
        match r {
            Ok(svgs) => {
                &&& svgs@.len() == chunks@.len()
                &&& forall|i: int|
                    0 <= i < svgs@.len() ==> Some((#[trigger] svgs@[i])@) == qr_svg_of(
                        chunks@[i]@,
                    )
            },
            Err(e) => e == RenderError::Unencodable && exists|i: int|
                0 <= i < chunks@.len() && qr_svg_of((#[trigger] chunks@[i])@) is None,
        },
{
    let mut svgs: Vec<String> = Vec::new();
    let mut i: usize = 0;
    while i < chunks.len()
        invariant
            i <= chunks@.len(),
            svgs@.len() == i,
            forall|j: int|
                0 <= j < i ==> Some((#[trigger] svgs@[j])@) == qr_svg_of(chunks@[j]@),
        decreases chunks@.len() - i,
    {
        match render_qr_svg(chunks[i].as_str()) {
            Ok(svg) => svgs.push(svg),
            Err(_) => {
                return Err(RenderError::Unencodable);
            },
        }
        i = i + 1;
    }
    Ok(svgs)
}

} // verus!
