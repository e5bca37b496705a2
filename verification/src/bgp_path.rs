//! Path listings as text: one line for each prefix and path, of the form
//! `ip/mask|asn asn asn`.

use vstd::prelude::*;

use crate::address::Address;
use crate::error::{Error, ErrorSpec};
use crate::path_collector::{dedup, dedup_adjacent};
use crate::routing_prefix::{prefix_of_text, RoutingPrefix};
use crate::text::{
    chars_of, parse_unsigned, piece_views, split, split_chars, string_of, unsigned_of_text,
};

verus! {

/// One line of a path listing: a prefix and a path towards it.
#[derive(Debug, PartialEq)]
pub struct BGPPath {
    pub addr: Address,
    pub as_path: Vec<u32>,
}

/// What a [`BGPPath`] is in contracts.
pub struct BGPPathView {
    pub addr: RoutingPrefix,
    pub as_path: Seq<u32>,
}

impl View for BGPPath {
    type V = BGPPathView;

    open spec fn view(&self) -> BGPPathView {
        BGPPathView { addr: self.addr, as_path: self.as_path@ }
    }
}

/// The AS numbers that space-separated pieces read as; the first piece
/// that is no number decides the error.
pub open spec fn asns_of_pieces(pieces: Seq<Seq<char>>) -> Result<Seq<u32>, ErrorSpec>
    decreases pieces.len(),
{
    if pieces.len() == 0 {
        Ok(Seq::empty())
    } else {
        match unsigned_of_text(pieces[0], 0xffff_ffff) {
            None => Err(ErrorSpec::ParseInt { bad_num: pieces[0] }),
            Some(asn) => match asns_of_pieces(pieces.skip(1)) {
                Err(e) => Err(e),
                Ok(rest) => Ok(seq![asn as u32] + rest),
            },
        }
    }
}

/// What one line reads as: the prefix before the `|`, and behind it the
/// path, with prepending taken out.
pub open spec fn path_of_line(s: Seq<char>) -> Result<BGPPathView, ErrorSpec> {
    let fields = split(s, '|');
    if fields.len() != 2 {
        Err(ErrorSpec::NoPipe { bad_quagga: s })
    } else {
        match prefix_of_text(fields[0]) {
            Err(e) => Err(e),
            Ok(addr) => match asns_of_pieces(split(fields[1], ' ')) {
                Err(e) => Err(e),
                Ok(asns) => Ok(BGPPathView { addr, as_path: dedup_adjacent(asns) }),
            },
        }
    }
}

/// What the lines of a listing read as; the first line that cannot be read
/// decides the error.
pub open spec fn paths_of_lines(lines: Seq<Seq<char>>) -> Result<Seq<BGPPathView>, ErrorSpec>
    decreases lines.len(),
{
    if lines.len() == 0 {
        Ok(Seq::empty())
    } else {
        match path_of_line(lines[0]) {
            Err(e) => Err(e),
            Ok(first) => match paths_of_lines(lines.skip(1)) {
                Err(e) => Err(e),
                Ok(rest) => Ok(seq![first] + rest),
            },
        }
    }
}

/// A parsed line, or the error, as contracts see it.
pub open spec fn line_result(r: Result<BGPPath, Error>) -> Result<BGPPathView, ErrorSpec> {
    match r {
        Ok(path) => Ok(path@),
        Err(e) => Err(e@),
    }
}

/// The views of parsed lines.
pub open spec fn line_views(paths: Seq<BGPPath>) -> Seq<BGPPathView> {
    Seq::new(paths.len(), |i: int| paths[i]@)
}

/// The texts of lines.
pub open spec fn text_views(lines: Seq<String>) -> Seq<Seq<char>> {
    Seq::new(lines.len(), |i: int| lines[i]@)
}

/// Parsed lines, or the error, as contracts see it.
pub open spec fn load_result(r: Result<Vec<BGPPath>, Error>) -> Result<
    Seq<BGPPathView>,
    ErrorSpec,
> {
    match r {
        Ok(paths) => Ok(line_views(paths@)),
        Err(e) => Err(e@),
    }
}

fn parse_asns(chars: &[char]) -> (r: Result<Vec<u32>, Error>)
    ensures
        match r {
            Ok(asns) => asns_of_pieces(split(chars@, ' ')) == Ok::<Seq<u32>, ErrorSpec>(asns@),
            Err(e) => asns_of_pieces(split(chars@, ' ')) == Err::<Seq<u32>, ErrorSpec>(e@),
        },
{
    let pieces = split_chars(chars, ' ');
    let ghost views = piece_views(pieces@);
    let mut asns: Vec<u32> = Vec::new();
    let mut i: usize = 0;
    proof {
        assert(views.skip(0) =~= views);
        assert(asns@ + asns_of_pieces(views)->Ok_0 =~= asns_of_pieces(views)->Ok_0);
    }
    while i < pieces.len()
        invariant
            i <= pieces@.len(),
            views == piece_views(pieces@),
            views == split(chars@, ' '),
            match asns_of_pieces(views.skip(i as int)) {
                Ok(rest) => asns_of_pieces(views) == Ok::<Seq<u32>, ErrorSpec>(asns@ + rest),
                Err(e) => asns_of_pieces(views) == Err::<Seq<u32>, ErrorSpec>(e),
            },
        decreases pieces@.len() - i,
    {
        let ghost left = views.skip(i as int);
        let ghost before = asns@;
        proof {
            assert(left[0] == pieces@[i as int]@);
            assert(left.skip(1) =~= views.skip(i + 1));
        }
        match parse_unsigned(pieces[i].as_slice(), 0xffff_ffff) {
            None => {
                return Err(Error::ParseInt { bad_num: string_of(pieces[i].as_slice()) });
            },
            Some(asn) => {
                asns.push(asn);
                proof {
                    match asns_of_pieces(left.skip(1)) {
                        Ok(rest) => {
                            assert(before + (seq![asn] + rest) =~= asns@ + rest);
                        },
                        Err(_) => {},
                    }
                }
            },
        }
        i += 1;
    }
    proof {
        assert(asns@ + Seq::<u32>::empty() =~= asns@);
    }
    Ok(asns)
}

impl BGPPath {
    /// Reads one line of the form `ip/mask|asn asn asn`.
    pub fn from_str(text: &str) -> (r: Result<BGPPath, Error>)
        ensures
            line_result(r) == path_of_line(text@),
    {
        let chars = chars_of(text);
        let fields = split_chars(chars.as_slice(), '|');
        if fields.len() != 2 {
            return Err(Error::NoPipe { bad_quagga: string_of(chars.as_slice()) });
        }
        proof {
            let views = piece_views(fields@);
            assert(views[0] == fields@[0]@);
            assert(views[1] == fields@[1]@);
        }
        let addr = match RoutingPrefix::from_chars(fields[0].as_slice()) {
            Ok(addr) => addr,
            Err(e) => {
                return Err(e);
            },
        };
        let asns = match parse_asns(fields[1].as_slice()) {
            Ok(asns) => asns,
            Err(e) => {
                return Err(e);
            },
        };
        let as_path = dedup(&asns);
        Ok(BGPPath { addr, as_path })
    }

    /// Reads the lines of a listing, in their order.
    pub fn load(lines: &Vec<String>) -> (r: Result<Vec<BGPPath>, Error>)
        ensures
            load_result(r) == paths_of_lines(text_views(lines@)),
    {
        let ghost texts = text_views(lines@);
        let mut paths: Vec<BGPPath> = Vec::new();
        let mut i: usize = 0;
        proof {
            assert(texts.skip(0) =~= texts);
            assert(line_views(paths@) + paths_of_lines(texts)->Ok_0 =~= paths_of_lines(
                texts,
            )->Ok_0);
        }
        while i < lines.len()
            invariant
                i <= lines@.len(),
                texts == text_views(lines@),
                match paths_of_lines(texts.skip(i as int)) {
                    Ok(rest) => paths_of_lines(texts) == Ok::<Seq<BGPPathView>, ErrorSpec>(
                        line_views(paths@) + rest,
                    ),
                    Err(e) => paths_of_lines(texts) == Err::<Seq<BGPPathView>, ErrorSpec>(e),
                },
            decreases lines@.len() - i,
        {
            let ghost left = texts.skip(i as int);
            let ghost before = line_views(paths@);
            proof {
                assert(left[0] == lines@[i as int]@);
                assert(left.skip(1) =~= texts.skip(i + 1));
            }
            match BGPPath::from_str(lines[i].as_str()) {
                Err(e) => {
                    return Err(e);
                },
                Ok(path) => {
                    let ghost view = path@;
                    paths.push(path);
                    proof {
                        assert(line_views(paths@) =~= before.push(view));
                        match paths_of_lines(left.skip(1)) {
                            Ok(rest) => {
                                assert(before + (seq![view] + rest) =~= line_views(paths@) + rest);
                            },
                            Err(_) => {},
                        }
                    }
                },
            }
            i += 1;
        }
        proof {
            assert(line_views(paths@) + Seq::<BGPPathView>::empty() =~= line_views(paths@));
        }
        Ok(paths)
    }
}

} // verus!
