//! The headers of a codestream.

use vstd::prelude::*;

use crate::bits;
use crate::container;
use crate::container::{Codestream, Marker, Piece};
use crate::error::{Error, Result};
use crate::header::picture;
use crate::header::rendering;
use crate::header::tools;
use crate::header::{PictureHeader, RenderingInfo, ToolHeader};

verus! {

/// Parsed headers of a codestream.
#[derive(Clone, Debug)]
pub struct Headers {
    pub picture: PictureHeader,
    pub tools: ToolHeader,
    pub rendering: RenderingInfo,
    /// User-defined information (UDI substream): opaque bytes, passed through untouched.
    pub user_data: Option<Vec<u8>>,
}

/// Headers as values.
pub struct HeadersView {
    pub picture: picture::PictureView,
    pub tools: tools::ToolView,
    pub rendering: rendering::RenderingView,
    pub user_data: Option<Seq<u8>>,
}

impl View for Headers {
    type V = HeadersView;

    open spec fn view(&self) -> HeadersView {
        HeadersView {
            picture: self.picture@,
            tools: self.tools@,
            rendering: self.rendering@,
            user_data: match self.user_data {
                Some(d) => Some(d@),
                None => None,
            },
        }
    }
}

/// The payload of the first substream with a marker.
pub open spec fn first_of(subs: Seq<Piece>, marker: Marker) -> Option<Seq<u8>> {
    let all = container::payloads_of(subs, marker);
    if all.len() == 0 {
        None
    } else {
        Some(all[0])
    }
}

/// The picture header, which must be there and keep to its profile and level.
pub open spec fn spec_picture_header(subs: Seq<Piece>) -> core::result::Result<
    picture::PictureView,
    Error,
> {
    match first_of(subs, Marker::Pih) {
        None => Err(Error::InvalidData("no picture header")),
        Some(pih) => match picture::spec_picture(bits::of_bytes(pih)) {
            Err(e) => Err(e),
            Ok((v, p)) => match picture::conformance_error(v) {
                Some(e) => Err(e),
                None => Ok(v),
            },
        },
    }
}

/// The tool header; without one no tool is on.
pub open spec fn spec_tool_header(subs: Seq<Piece>, pic: picture::PictureView) -> core::result::Result<
    tools::ToolView,
    Error,
> {
    match first_of(subs, Marker::Ton) {
        None => Ok(
            tools::ToolView {
                lsbs_enabled: (false, false),
                efe_linear: None,
                icci: None,
                efe_nonlinear: None,
                lef_channel: None,
            },
        ),
        Some(ton) => match tools::spec_tools(bits::of_bytes(ton), tools::context_of_view(pic)) {
            Err(e) => Err(e),
            Ok((v, p)) => Ok(v),
        },
    }
}

/// The rendering information; without any nothing is known.
pub open spec fn spec_rendering_info(subs: Seq<Piece>) -> core::result::Result<
    rendering::RenderingView,
    Error,
> {
    match first_of(subs, Marker::Rdi) {
        None => Ok(
            rendering::RenderingView { cicp: None, mdcv: None, clli: None, display_mapping: None },
        ),
        Some(rdi) => match rendering::spec_rendering(bits::of_bytes(rdi)) {
            Err(e) => Err(e),
            Ok((v, p)) => Ok(v),
        },
    }
}

/// The headers of a codestream, or the first error in the order picture, tools, rendering.
pub open spec fn spec_headers(subs: Seq<Piece>) -> core::result::Result<HeadersView, Error> {
    match spec_picture_header(subs) {
        Err(e) => Err(e),
        Ok(picture) => match spec_tool_header(subs, picture) {
            Err(e) => Err(e),
            Ok(tools) => match spec_rendering_info(subs) {
                Err(e) => Err(e),
                Ok(rendering) => Ok(
                    HeadersView {
                        picture,
                        tools,
                        rendering,
                        user_data: first_of(subs, Marker::Udi),
                    },
                ),
            },
        },
    }
}

/// The bytes of a slice in a vector of their own.
pub(crate) fn copied(bytes: &[u8]) -> (v: Vec<u8>)
    ensures
        v@ == bytes@,
{
    let mut v: Vec<u8> = Vec::new();
    v.extend_from_slice(bytes);
    proof {
        assert(v@ =~= bytes@);
    }
    v
}

fn read_picture(cs: &Codestream<'_>) -> (r: Result<PictureHeader>)
    requires
        container::readable(cs@),
    ensures
        match spec_picture_header(cs@) {
            Ok(v) => r matches Ok(h) && h@ == v && h.width * h.height <= 398_131_200
                && h.coded_size() && h.displayable(),
            Err(e) => r == Err::<PictureHeader, Error>(e),
        },
{
    let pih = match cs.find(Marker::Pih) {
        Some(p) => p,
        None => return Err(Error::InvalidData("no picture header")),
    };
    proof {
        container::lemma_readable(cs@, Marker::Pih, 0);
    }
    let picture = PictureHeader::parse(pih)?;
    picture.check_conformance()?;
    Ok(picture)
}

fn read_tools(cs: &Codestream<'_>, picture: &PictureHeader) -> (r: Result<ToolHeader>)
    requires
        container::readable(cs@),
        picture.width * picture.height <= 398_131_200,
    ensures
        match spec_tool_header(cs@, picture@) {
            Ok(v) => r matches Ok(h) && h@ == v,
            Err(e) => r == Err::<ToolHeader, Error>(e),
        },
{
    match cs.find(Marker::Ton) {
        Some(ton) => {
            proof {
                container::lemma_readable(cs@, Marker::Ton, 0);
                assert(picture.height * picture.width == picture.width * picture.height)
                    by (nonlinear_arith);
                assert(tools::context_of(picture) == tools::context_of_view(picture@));
            }
            ToolHeader::parse(ton, picture)
        },
        None => Ok(ToolHeader::default()),
    }
}

fn read_rendering(cs: &Codestream<'_>) -> (r: Result<RenderingInfo>)
    requires
        container::readable(cs@),
    ensures
        match spec_rendering_info(cs@) {
            Ok(v) => r matches Ok(h) && h@ == v,
            Err(e) => r == Err::<RenderingInfo, Error>(e),
        },
{
    match cs.find(Marker::Rdi) {
        Some(rdi) => {
            proof {
                container::lemma_readable(cs@, Marker::Rdi, 0);
            }
            RenderingInfo::parse(rdi)
        },
        None => Ok(RenderingInfo::default()),
    }
}

/// Parse and validate the non-entropy-coded substreams.
pub fn read_headers(cs: &Codestream<'_>) -> (r: Result<Headers>)
    requires
        container::readable(cs@),
    ensures
        match spec_headers(cs@) {
            Ok(v) => r matches Ok(h) && h@ == v,
            Err(e) => r == Err::<Headers, Error>(e),
        },
        r matches Ok(h) ==> h.picture.coded_size() && h.picture.displayable() && h.picture.width
            * h.picture.height <= 398_131_200,
{
    let picture = read_picture(cs)?;
    let tools = read_tools(cs, &picture)?;
    let rendering = read_rendering(cs)?;
    let user_data: Option<Vec<u8>> = match cs.find(Marker::Udi) {
        Some(d) => Some(copied(d)),
        None => None,
    };
    Ok(Headers { picture, tools, rendering, user_data })
}

} // verus!
