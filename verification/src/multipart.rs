//! The multipart/form-data parser. The body is split on the boundary
//! marker at the byte level, because file payloads are arbitrary binary
//! data; each part is cut at its first blank line into a header block and a
//! payload, and the header block decides whether the part is a form field
//! or a file attachment.

use vstd::prelude::*;
use crate::byteutil::{bfind_at, bsplit_by, bviews, split_bytes, split_once_bytes};
use crate::codec::{bytes_to_string_lossy, lossy_of};
use crate::dict::Table;
use crate::file::UploadedFile;
use crate::router::pairs_to_map;
use crate::strutil::{
    spec_starts_with, spec_trim_quotes, split_by, split_str, starts_with, substring, trim_quotes,
    views,
};

verus! {

/// What one part's header block and payload say.
pub struct PartInfo {
    pub name: Option<Seq<char>>,
    pub filename: Option<Seq<char>>,
    pub ctype: Option<Seq<char>>,
    pub payload: Seq<u8>,
}

/// A file attachment as the parts describe it.
pub struct FilePartModel {
    pub name: Seq<char>,
    pub filename: Seq<char>,
    pub ctype: Option<Seq<char>>,
    pub content: Seq<u8>,
}

/// The name and filename parameters of a `Content-Disposition` line's
/// `; `-separated pieces; a later piece wins, quotes are stripped.
pub open spec fn dispo_info(pieces: Seq<Seq<char>>) -> (Option<Seq<char>>, Option<Seq<char>>)
    decreases pieces.len(),
{
    if pieces.len() == 0 {
        (None, None)
    } else {
        let prev = dispo_info(pieces.drop_last());
        let piece = pieces.last();
        if spec_starts_with(piece, "filename="@) {
            (prev.0, Some(spec_trim_quotes(piece.skip(9))))
        } else if spec_starts_with(piece, "name="@) {
            (Some(spec_trim_quotes(piece.skip(5))), prev.1)
        } else {
            prev
        }
    }
}

/// Fold a header line into the (name, filename, content type) gathered so
/// far; a later line wins.
pub open spec fn line_update(
    acc: (Option<Seq<char>>, Option<Seq<char>>, Option<Seq<char>>),
    line: Seq<char>,
) -> (Option<Seq<char>>, Option<Seq<char>>, Option<Seq<char>>) {
    if spec_starts_with(line, "Content-Disposition:"@) {
        let d = dispo_info(split_by(line, "; "@));
        (
            if d.0 is Some {
                d.0
            } else {
                acc.0
            },
            if d.1 is Some {
                d.1
            } else {
                acc.1
            },
            acc.2,
        )
    } else if spec_starts_with(line, "Content-Type: "@) {
        (acc.0, acc.1, Some(line.skip(14)))
    } else {
        acc
    }
}

pub open spec fn headers_info(lines: Seq<Seq<char>>) -> (
    Option<Seq<char>>,
    Option<Seq<char>>,
    Option<Seq<char>>,
)
    decreases lines.len(),
{
    if lines.len() == 0 {
        (None, None, None)
    } else {
        line_update(headers_info(lines.drop_last()), lines.last())
    }
}

/// A trailing CRLF, and only a trailing CRLF, is stripped from a payload:
/// it belongs to the boundary line that follows, not to the content.
pub open spec fn strip_crlf(b: Seq<u8>) -> Seq<u8> {
    if b.len() >= 2 && b[b.len() - 2] == 13 && b[b.len() - 1] == 10 {
        b.subrange(0, b.len() - 2)
    } else {
        b
    }
}

/// Cut a part at its first blank-line marker; the payload loses its
/// trailing CRLF, and the header block is read lossily as text.
pub open spec fn part_info(p: Seq<u8>) -> Option<PartInfo> {
    let f = bfind_at(p, seq![13u8, 10u8, 13u8, 10u8], 0);
    if f < 0 {
        None
    } else {
        let headers = p.subrange(0, f);
        let payload = strip_crlf(p.skip(f + 4));
        let hi = headers_info(split_by(lossy_of(headers), "\r\n"@));
        Some(PartInfo { name: hi.0, filename: hi.1, ctype: hi.2, payload })
    }
}

/// The extension a filename carries: its last `.`-delimited piece (the
/// whole name when it has no dot).
pub open spec fn ext_of(filename: Seq<char>) -> Seq<char> {
    split_by(filename, "."@).last()
}

/// How the terminal part `--B--` looks once the body has been split on
/// `--B`: a piece that begins with `--`. An ordinary part's piece begins
/// with the CRLF that followed its boundary line, never with `--`.
pub open spec fn is_terminal_piece(p: Seq<u8>) -> bool {
    p.len() >= 2 && p[0] == 45 && p[1] == 45
}

/// The fields and files the parts after the preamble denote. The terminal
/// part ends processing: nothing at or after it contributes, whatever
/// bytes follow the final boundary. A part without a blank line, without a
/// name, or a named file part with an empty payload contributes nothing.
pub open spec fn mp_entries(parts: Seq<Seq<u8>>, i: int) -> (
    Seq<(Seq<char>, Seq<char>)>,
    Seq<FilePartModel>,
)
    decreases parts.len() - i,
{
    if i < 0 || i >= parts.len() || is_terminal_piece(parts[i]) {
        (Seq::empty(), Seq::empty())
    } else {
        let rest = mp_entries(parts, i + 1);
        match part_info(parts[i]) {
            None => rest,
            Some(pi) => match pi.name {
                None => rest,
                Some(nm) => match pi.filename {
                    None => (seq![(nm, lossy_of(pi.payload))] + rest.0, rest.1),
                    Some(fnm) => if pi.payload.len() > 0 {
                        (
                            rest.0,
                            seq![
                                FilePartModel {
                                    name: nm,
                                    filename: fnm,
                                    ctype: pi.ctype,
                                    content: pi.payload,
                                },
                            ] + rest.1,
                        )
                    } else {
                        rest
                    },
                },
            },
        }
    }
}

/// The boundary marker that separates parts: `--` then the boundary, as
/// bytes.
pub open spec fn mp_marker(boundary: Seq<char>) -> Seq<u8> {
    vstd::utf8::encode_utf8("--"@ + boundary)
}

/// The view of an optional string.
pub open spec fn osv(o: Option<String>) -> Option<Seq<char>> {
    match o {
        Some(s) => Some(s@),
        None => None,
    }
}

/// Parse one part: the disposition parameters and content type from its
/// header block, and its payload.
fn parse_part(p: &[u8]) -> (r: Option<(Option<String>, Option<String>, Option<String>, Vec<u8>)>)
    ensures
        match r {
            None => part_info(p@) is None,
            Some(info) => part_info(p@) matches Some(pi) && osv(info.0) == pi.name && osv(info.1)
                == pi.filename && osv(info.2) == pi.ctype && info.3@ == pi.payload,
        },
{
    let mut crlf2: Vec<u8> = Vec::new();
    crlf2.push(13);
    crlf2.push(10);
    crlf2.push(13);
    crlf2.push(10);
    proof {
        assert(crlf2@ =~= seq![13u8, 10u8, 13u8, 10u8]);
    }
    let (hb, payload_full) = match split_once_bytes(p, crlf2.as_slice()) {
        Some(pair) => pair,
        None => {
            return None;
        },
    };
    let mut payload = payload_full;
    let ghost pf = payload@;
    let plen = payload.len();
    if plen >= 2 && payload[plen - 2] == 13 && payload[plen - 1] == 10 {
        payload.truncate(plen - 2);
        proof {
            assert(payload@ =~= pf.subrange(0, pf.len() - 2));
            assert(payload@ == strip_crlf(pf));
        }
    } else {
        proof {
            assert(payload@ == strip_crlf(pf));
        }
    }
    let hs = bytes_to_string_lossy(hb.as_slice());
    proof {
        reveal_strlit("\r\n");
    }
    let lines = split_str(hs.as_str(), "\r\n");
    let ghost lv = views(lines@);
    let mut name: Option<String> = None;
    let mut filename: Option<String> = None;
    let mut ctype: Option<String> = None;
    let n = lines.len();
    let mut i: usize = 0;
    proof {
        assert(lv.subrange(0, 0) =~= Seq::<Seq<char>>::empty());
    }
    while i < n
        invariant
            i <= n,
            n == lines@.len(),
            lv == views(lines@),
            (osv(name), osv(filename), osv(ctype)) == headers_info(lv.subrange(0, i as int)),
        decreases n - i,
    {
        let ghost pre = lv.subrange(0, i as int);
        let ghost cur = lv.subrange(0, i + 1);
        proof {
            assert(cur.drop_last() =~= pre);
            assert(cur.last() == lv[i as int]);
            assert(lv[i as int] == lines@[i as int]@);
        }
        let line = &lines[i];
        if starts_with(line.as_str(), "Content-Disposition:") {
            proof {
                reveal_strlit("; ");
            }
            let pieces = split_str(line.as_str(), "; ");
            let ghost piv = views(pieces@);
            let mut dn: Option<String> = None;
            let mut df: Option<String> = None;
            let pn = pieces.len();
            let mut j: usize = 0;
            proof {
                assert(piv.subrange(0, 0) =~= Seq::<Seq<char>>::empty());
            }
            while j < pn
                invariant
                    j <= pn,
                    pn == pieces@.len(),
                    piv == views(pieces@),
                    (osv(dn), osv(df)) == dispo_info(piv.subrange(0, j as int)),
                decreases pn - j,
            {
                let ghost ppre = piv.subrange(0, j as int);
                let ghost pcur = piv.subrange(0, j + 1);
                proof {
                    assert(pcur.drop_last() =~= ppre);
                    assert(pcur.last() == piv[j as int]);
                    assert(piv[j as int] == pieces@[j as int]@);
                }
                let piece = &pieces[j];
                let pl = piece.as_str().unicode_len();
                if starts_with(piece.as_str(), "filename=") {
                    proof {
                        reveal_strlit("filename=");
                        assert(piece@.skip(9) =~= piece@.subrange(9, piece@.len() as int));
                    }
                    let tail = substring(piece.as_str(), 9, pl);
                    df = Some(trim_quotes(tail.as_str()));
                } else if starts_with(piece.as_str(), "name=") {
                    proof {
                        reveal_strlit("name=");
                        assert(piece@.skip(5) =~= piece@.subrange(5, piece@.len() as int));
                    }
                    let tail = substring(piece.as_str(), 5, pl);
                    dn = Some(trim_quotes(tail.as_str()));
                }
                j = j + 1;
            }
            proof {
                assert(piv.subrange(0, pn as int) =~= piv);
            }
            if dn.is_some() {
                name = dn;
            }
            if df.is_some() {
                filename = df;
            }
        } else if starts_with(line.as_str(), "Content-Type: ") {
            proof {
                reveal_strlit("Content-Type: ");
                assert(line@.skip(14) =~= line@.subrange(14, line@.len() as int));
            }
            let ln = line.as_str().unicode_len();
            ctype = Some(substring(line.as_str(), 14, ln));
        }
        i = i + 1;
    }
    proof {
        assert(lv.subrange(0, n as int) =~= lv);
    }
    Some((name, filename, ctype, payload))
}

/// The relation between a multipart body and its parse: the fields table
/// is the mapping the field parts denote (read lossily as text, a later
/// duplicate name winning), and the files are the named, non-empty file
/// attachments in order, each with its filename, optional content type,
/// raw bytes, byte length and filename extension.
pub open spec fn mp_result_ok(
    fields: Table,
    files: Seq<(String, UploadedFile)>,
    data: Seq<u8>,
    boundary: Seq<char>,
) -> bool {
    let parts = bsplit_by(data, mp_marker(boundary));
    let ents = mp_entries(parts, 1);
    &&& fields.wf()
    &&& fields@ == pairs_to_map(ents.0)
    &&& files.len() == ents.1.len()
    &&& forall|j: int|
        0 <= j < ents.1.len() ==> {
            let fm = ents.1[j];
            let got = #[trigger] files[j];
            &&& got.0@ == fm.name
            &&& got.1.filename@ == fm.filename
            &&& osv(got.1.content_type) == fm.ctype
            &&& got.1.content@ == fm.content
            &&& got.1.extension@ == ext_of(fm.filename)
            &&& got.1.size == fm.content.len()
        }
}

/// Parse a multipart/form-data body against its boundary.
pub fn parse_multipart_form_data(form_data: &[u8], boundary: &str) -> (r: (Table, Vec<
    (String, UploadedFile),
>))
    ensures
        mp_result_ok(r.0, r.1@, form_data@, boundary@),
{
    let mut marker_str: String = "--".to_owned();
    marker_str.append(boundary);
    let marker = marker_str.as_str().as_bytes_vec();
    proof {
        assert(marker@ == mp_marker(boundary@));
    }
    let parts = split_bytes(form_data, marker.as_slice());
    let ghost pv = bviews(parts@);
    let mut fields = Table::new();
    let mut files: Vec<(String, UploadedFile)> = Vec::new();
    let ghost all = mp_entries(pv, 1);
    let n = parts.len();
    let mut i: usize = 1;
    let ghost mut fseq: Seq<(Seq<char>, Seq<char>)> = Seq::empty();
    let ghost mut mseq: Seq<FilePartModel> = Seq::empty();
    proof {
        assert(fseq + mp_entries(pv, 1).0 =~= all.0);
        assert(mseq + mp_entries(pv, 1).1 =~= all.1);
        assert(fields@ =~= pairs_to_map(fseq));
    }
    while i < n
        invariant
            1 <= i <= n,
            n == parts@.len(),
            pv == bviews(parts@),
            pv == bsplit_by(form_data@, mp_marker(boundary@)),
            all == mp_entries(pv, 1),
            all.0 == fseq + mp_entries(pv, i as int).0,
            all.1 == mseq + mp_entries(pv, i as int).1,
            fields.wf(),
            fields@ == pairs_to_map(fseq),
            files@.len() == mseq.len(),
            forall|j: int|
                0 <= j < mseq.len() ==> {
                    let fm = mseq[j];
                    let got = #[trigger] files@[j];
                    &&& got.0@ == fm.name
                    &&& got.1.filename@ == fm.filename
                    &&& osv(got.1.content_type) == fm.ctype
                    &&& got.1.content@ == fm.content
                    &&& got.1.extension@ == ext_of(fm.filename)
                    &&& got.1.size == fm.content.len()
                },
        decreases n - i,
    {
        proof {
            assert(pv[i as int] == parts@[i as int]@);
        }
        let part = &parts[i];
        if part.len() >= 2 && part[0] == 45 && part[1] == 45 {
            proof {
                assert(is_terminal_piece(pv[i as int]));
                assert(mp_entries(pv, i as int).0 =~= Seq::<(Seq<char>, Seq<char>)>::empty());
                assert(mp_entries(pv, i as int).1 =~= Seq::<FilePartModel>::empty());
                assert(all.0 =~= fseq);
                assert(all.1 =~= mseq);
            }
            return (fields, files);
        }
        proof {
            assert(!is_terminal_piece(pv[i as int]));
        }
        let ghost rest_ent = mp_entries(pv, i + 1);
        match parse_part(parts[i].as_slice()) {
            None => {
                proof {
                    assert(mp_entries(pv, i as int) == rest_ent);
                }
            },
            Some((pname, pfile, pct, payload)) => {
                match pname {
                    None => {
                        proof {
                            assert(mp_entries(pv, i as int) == rest_ent);
                        }
                    },
                    Some(nm) => {
                        match pfile {
                            None => {
                                let text = bytes_to_string_lossy(payload.as_slice());
                                let ghost fpre = fseq;
                                proof {
                                    fseq = fseq + seq![(nm@, lossy_of(payload@))];
                                }
                                fields.insert(nm, text);
                                proof {
                                    assert(fseq.drop_last() =~= fpre);
                                    assert(mp_entries(pv, i as int).0 == seq![
                                        fseq.last(),
                                    ] + rest_ent.0);
                                    assert(mp_entries(pv, i as int).1 == rest_ent.1);
                                    assert(all.0 =~= fseq + rest_ent.0);
                                }
                            },
                            Some(fnm) => {
                                if payload.len() > 0 {
                                    let ext = last_dot_piece(fnm.as_str());
                                    let size = payload.len() as u64;
                                    let ghost pay = payload@;
                                    let ghost fnmv = fnm@;
                                    let ghost ctv = osv(pct);
                                    let ghost nmv = nm@;
                                    let uf = UploadedFile {
                                        filename: fnm,
                                        content_type: pct,
                                        content: payload,
                                        extension: ext,
                                        size,
                                    };
                                    let ghost mpre = mseq;
                                    proof {
                                        mseq = mseq + seq![
                                            FilePartModel {
                                                name: nmv,
                                                filename: fnmv,
                                                ctype: ctv,
                                                content: pay,
                                            },
                                        ];
                                    }
                                    files.push((nm, uf));
                                    proof {
                                        assert(mseq.drop_last() =~= mpre);
                                        assert(mp_entries(pv, i as int).1 == seq![
                                            mseq.last(),
                                        ] + rest_ent.1);
                                        assert(mp_entries(pv, i as int).0 == rest_ent.0);
                                        assert(all.1 =~= mseq + rest_ent.1);
                                    }
                                } else {
                                    proof {
                                        assert(mp_entries(pv, i as int) == rest_ent);
                                    }
                                }
                            },
                        }
                    },
                }
            },
        }
        i = i + 1;
        proof {
            assert(all.0 =~= fseq + mp_entries(pv, i as int).0);
            assert(all.1 =~= mseq + mp_entries(pv, i as int).1);
        }
    }
    proof {
        assert(mp_entries(pv, n as int).0 =~= Seq::<(Seq<char>, Seq<char>)>::empty());
        assert(all.0 =~= fseq);
        assert(all.1 =~= mseq);
    }
    (fields, files)
}

/// The last `.`-delimited piece of a filename.
fn last_dot_piece(filename: &str) -> (r: String)
    ensures
        r@ == ext_of(filename@),
{
    proof {
        reveal_strlit(".");
    }
    let pieces = split_str(filename, ".");
    let k = pieces.len();
    proof {
        assert(views(pieces@).len() > 0);
        assert(views(pieces@)[k - 1] == pieces@[k - 1]@);
    }
    pieces[k - 1].clone()
}

} // verus!
