//! Magnet links.

use crate::bencode::decimal;
use crate::bencode::push_decimal;
use crate::error::Error;
use crate::file_path::lemma_views_push;
use crate::file_path::views;
use crate::metainfo::optional_text;
use crate::metainfo::tiers_view;
use crate::metainfo::HostPort;
use crate::metainfo::HostPortView;
use crate::metainfo::Metainfo;
use crate::metainfo::MetainfoView;
use crate::text::ascii;
use crate::text::string_from_utf8;
use crate::urls::url_normal_form;
use crate::urls::url_parse;
use crate::urls::url_set_query;
use crate::urls::url_with_query;
use crate::urls::URL_LENGTH_LIMIT;
use crate::wire::hex;
use vstd::prelude::*;
use vstd::string::StrSliceExecFns;
use vstd::string::StringSliceAdditionalSpecFns;
use vstd::utf8::decode_utf8;
use vstd::utf8::encode_utf8;
use vstd::utf8::valid_utf8;

verus! {

/// A link to a torrent by its info-hash.
#[derive(Debug, PartialEq, Eq)]
pub struct MagnetLink {
    pub infohash: [u8; 20],
    pub name: Option<String>,
    pub trackers: Vec<String>,
    pub peers: Vec<HostPort>,
}

/// What a `MagnetLink` holds.
pub struct MagnetLinkView {
    pub infohash: Seq<u8>,
    pub name: Option<Seq<char>>,
    pub trackers: Seq<Seq<char>>,
    pub peers: Seq<HostPortView>,
}

impl View for MagnetLink {
    type V = MagnetLinkView;

    open spec fn view(&self) -> MagnetLinkView {
        MagnetLinkView {
            infohash: self.infohash@,
            name: optional_text(self.name),
            trackers: views(self.trackers@),
            peers: views(self.peers@),
        }
    }
}

/// The strings of `tiers`, one tier after the other.
pub open spec fn flattened(tiers: Seq<Seq<Seq<char>>>) -> Seq<Seq<char>>
    decreases tiers.len(),
{
    if tiers.len() == 0 {
        Seq::empty()
    } else {
        flattened(tiers.drop_last()) + tiers.last()
    }
}

/// The strings of `texts` without those that stood there before.
pub open spec fn distinct(texts: Seq<Seq<char>>) -> Seq<Seq<char>>
    decreases texts.len(),
{
    if texts.len() == 0 {
        Seq::empty()
    } else if distinct(texts.drop_last()).contains(texts.last()) {
        distinct(texts.drop_last())
    } else {
        distinct(texts.drop_last()).push(texts.last())
    }
}

/// The announce URLs of a document as given: the primary one, then those
/// of the tiers.
pub open spec fn tracker_texts(
    announce: Option<Seq<char>>,
    announce_list: Option<Seq<Seq<Seq<char>>>>,
) -> Seq<Seq<char>> {
    (match announce {
        Some(url) => seq![url],
        None => Seq::empty(),
    }) + (match announce_list {
        Some(tiers) => flattened(tiers),
        None => Seq::empty(),
    })
}

/// The info-hash of the document can be had: every length in the info
/// dictionary is one that a bencode integer holds, and the dictionary is no
/// longer than SHA-1 is defined for.
pub open spec fn has_infohash(metainfo: MetainfoView) -> bool {
    metainfo.info.encodable() && metainfo.info.bencode().encoding().len()
        < crate::digest::SHA1_INPUT_LIMIT
}

/// Every one of `texts` is a URL.
pub open spec fn all_urls(texts: Seq<Seq<char>>) -> bool {
    forall|i: int| 0 <= i < texts.len() ==> url_normal_form(#[trigger] texts[i]) is Some
}

/// The serialised URLs that `texts` stand for.
pub open spec fn normal_forms(texts: Seq<Seq<char>>) -> Seq<Seq<char>> {
    Seq::new(texts.len(), |i: int| url_normal_form(texts[i])->Some_0)
}

/// The part of the query for the key `key` and the value `value`.
pub open spec fn pair(key: Seq<char>, value: Seq<u8>) -> Seq<u8> {
    seq![38u8] + ascii(key) + seq![61u8] + value
}

/// The parts of the query for the trackers `trackers`.
pub open spec fn tracker_pairs(trackers: Seq<Seq<char>>) -> Seq<u8>
    decreases trackers.len(),
{
    if trackers.len() == 0 {
        Seq::empty()
    } else {
        tracker_pairs(trackers.drop_last()) + pair("tr"@, encode_utf8(trackers.last()))
    }
}

/// A peer as text: the host, a colon, the port.
pub open spec fn peer_text(peer: HostPortView) -> Seq<u8> {
    encode_utf8(peer.host) + seq![58u8] + decimal(peer.port as nat)
}

/// The parts of the query for the peers `peers`.
pub open spec fn peer_pairs(peers: Seq<HostPortView>) -> Seq<u8>
    decreases peers.len(),
{
    if peers.len() == 0 {
        Seq::empty()
    } else {
        peer_pairs(peers.drop_last()) + pair("x.pe"@, peer_text(peers.last()))
    }
}

impl MagnetLinkView {
    /// The query of the link, before the URL is serialised: the info-hash
    /// in hexadecimal, then the name, the trackers and the peers.
    pub open spec fn query(self) -> Seq<u8> {
        ascii("xt=urn:btih:"@) + hex(self.infohash) + (match self.name {
            Some(name) => pair("dn"@, encode_utf8(name)),
            None => Seq::empty(),
        }) + tracker_pairs(self.trackers) + peer_pairs(self.peers)
    }

    /// The link as a URL, where its query is text that is short enough.
    pub open spec fn url(self) -> Option<Seq<char>> {
        if valid_utf8(self.query()) && decode_utf8(self.query()).len() < URL_LENGTH_LIMIT {
            url_with_query("magnet:"@, decode_utf8(self.query()))
        } else {
            None
        }
    }
}

/// Appends the part of the query for the key `key` and the value `value`.
fn push_pair(out: &mut Vec<u8>, key: &str, value: &[u8])
    requires
        key.is_ascii(),
    ensures
        final(out)@ == old(out)@ + pair(key@, value@),
{
    broadcast use vstd::string::is_ascii_spec_bytes;

    out.push(38u8);
    let name = key.as_bytes();
    assert(name@ =~= ascii(key@));
    push_all(out, name);
    out.push(61u8);
    push_all(out, value);
    assert(out@ =~= old(out)@ + pair(key@, value@));
}

/// Appends `bytes`.
fn push_all(out: &mut Vec<u8>, bytes: &[u8])
    ensures
        final(out)@ == old(out)@ + bytes@,
{
    let mut i: usize = 0;
    assert(out@ =~= old(out)@ + bytes@.take(0));
    while i < bytes.len()
        invariant
            i <= bytes.len(),
            out@ == old(out)@ + bytes@.take(i as int),
        decreases bytes.len() - i,
    {
        out.push(bytes[i]);
        assert(out@ =~= old(out)@ + bytes@.take(i + 1));
        i += 1;
    }
    assert(bytes@.take(bytes.len() as int) =~= bytes@);
}

/// The strings of `texts` without those that stood there before.
pub fn without_repeats(texts: &Vec<String>) -> (r: Vec<String>)
    ensures
        views(r@) == distinct(views(texts@)),
{
    let mut out: Vec<String> = Vec::new();
    let ghost all = views(texts@);
    let mut i: usize = 0;
    assert(all.take(0) =~= Seq::<Seq<char>>::empty());
    assert(views(out@) =~= Seq::<Seq<char>>::empty());
    while i < texts.len()
        invariant
            i <= texts.len(),
            all == views(texts@),
            views(out@) == distinct(all.take(i as int)),
        decreases texts.len() - i,
    {
        let text = &texts[i];
        let mut seen = false;
        let mut k: usize = 0;
        while k < out.len()
            invariant
                k <= out.len(),
                seen == exists|j: int| 0 <= j < k && views(out@)[j] == text@,
            decreases out.len() - k,
        {
            if out[k] == *text {
                assert(views(out@)[k as int] == text@);
                seen = true;
            }
            k += 1;
        }
        proof {
            assert(all.take(i + 1).drop_last() =~= all.take(i as int));
            assert(all.take(i + 1).last() == text@);
            assert(seen == views(out@).contains(text@));
        }
        if !seen {
            let copy = text.clone();
            proof {
                lemma_views_push(out@, copy);
            }
            out.push(copy);
        }
        i += 1;
    }
    assert(all.take(texts.len() as int) =~= all);
    out
}

impl MagnetLink {
    /// The link to the torrent with the info-hash `infohash`.
    pub fn with_infohash(infohash: [u8; 20]) -> (link: MagnetLink)
        ensures
            link@ == (MagnetLinkView {
                infohash: infohash@,
                name: None,
                trackers: Seq::empty(),
                peers: Seq::empty(),
            }),
    {
        let link = MagnetLink { infohash, name: None, trackers: Vec::new(), peers: Vec::new() };
        assert(link@.trackers =~= Seq::empty());
        assert(link@.peers =~= Seq::empty());
        link
    }

    /// Adds a peer after those that the link has.
    pub fn add_peer(&mut self, peer: HostPort)
        ensures
            final(self)@ == (MagnetLinkView {
                peers: old(self)@.peers.push(peer@),
                ..old(self)@
            }),
    {
        proof {
            lemma_views_push(self.peers@, peer);
        }
        self.peers.push(peer);
    }

    /// The announce URLs of `metainfo` as given: the primary one, then
    /// those of the tiers.
    pub fn tracker_texts(metainfo: &Metainfo) -> (r: Vec<String>)
        ensures
            views(r@) == tracker_texts(metainfo@.announce, metainfo@.announce_list),
    {
        let mut texts: Vec<String> = Vec::new();
        assert(views(texts@) =~= Seq::<Seq<char>>::empty());
        match &metainfo.announce {
            Some(url) => {
                let copy = url.clone();
                proof {
                    lemma_views_push(texts@, copy);
                }
                texts.push(copy);
                assert(views(texts@) =~= seq![url@]);
            },
            None => {},
        }
        let ghost first = views(texts@);
        match &metainfo.announce_list {
            Some(tiers) => {
                let ghost all = tiers_view(tiers@);
                let mut i: usize = 0;
                assert(all.take(0) =~= Seq::<Seq<Seq<char>>>::empty());
                assert(first + flattened(all.take(0)) =~= first);
                while i < tiers.len()
                    invariant
                        i <= tiers.len(),
                        all == tiers_view(tiers@),
                        views(texts@) == first + flattened(all.take(i as int)),
                    decreases tiers.len() - i,
                {
                    let tier = &tiers[i];
                    let ghost before = views(texts@);
                    let mut j: usize = 0;
                    assert(before + views(tier@).take(0) =~= before);
                    while j < tier.len()
                        invariant
                            j <= tier.len(),
                            views(texts@) == before + views(tier@).take(j as int),
                        decreases tier.len() - j,
                    {
                        let copy = tier[j].clone();
                        proof {
                            lemma_views_push(texts@, copy);
                        }
                        texts.push(copy);
                        assert(views(texts@) =~= before + views(tier@).take(j + 1));
                        j += 1;
                    }
                    proof {
                        assert(views(tier@).take(tier.len() as int) =~= views(tier@));
                        assert(all.take(i + 1).drop_last() =~= all.take(i as int));
                        assert(all.take(i + 1).last() == views(tier@));
                        assert(views(texts@) =~= first + flattened(all.take(i + 1)));
                    }
                    i += 1;
                }
                assert(all.take(tiers.len() as int) =~= all);
            },
            None => {
                assert(first + Seq::<Seq<char>>::empty() =~= first);
            },
        }
        texts
    }

    /// The link to the torrent that `metainfo` describes, with its name and
    /// its announce URLs, each once. Fails with `IntegerRange` where the
    /// info-hash cannot be had, else with `AnnounceUrlParse` where an
    /// announce URL is none.
    pub fn from_metainfo(metainfo: &Metainfo) -> (r: Result<MagnetLink, Error>)
        ensures
            r is Ok <==> has_infohash(metainfo@) && all_urls(
                tracker_texts(metainfo@.announce, metainfo@.announce_list),
            ),
            r matches Ok(link) ==> {
                &&& link@.infohash == metainfo@.infohash()
                &&& link@.name == Some(metainfo@.info.name)
                &&& link@.trackers == distinct(
                    normal_forms(tracker_texts(metainfo@.announce, metainfo@.announce_list)),
                )
                &&& link@.peers == Seq::<HostPortView>::empty()
            },
            r matches Err(e) ==> e == (if has_infohash(metainfo@) {
                Error::AnnounceUrlParse
            } else {
                Error::IntegerRange
            }),
    {
        let infohash = match metainfo.infohash() {
            Ok(infohash) => infohash,
            Err(e) => {
                return Err(e);
            },
        };
        let texts = MagnetLink::tracker_texts(metainfo);
        let ghost all = views(texts@);
        let mut urls: Vec<String> = Vec::new();
        let mut i: usize = 0;
        assert(views(urls@) =~= normal_forms(all).take(0));
        while i < texts.len()
            invariant
                i <= texts.len(),
                all == views(texts@),
                has_infohash(metainfo@),
                all == tracker_texts(metainfo@.announce, metainfo@.announce_list),
                views(urls@) == normal_forms(all).take(i as int),
                forall|k: int| 0 <= k < i ==> url_normal_form(#[trigger] all[k]) is Some,
            decreases texts.len() - i,
        {
            assert(all[i as int] == texts[i as int]@);
            match url_parse(texts[i].as_str()) {
                Ok(url) => {
                    proof {
                        lemma_views_push(urls@, url);
                    }
                    urls.push(url);
                    assert(views(urls@) =~= normal_forms(all).take(i + 1));
                },
                Err(_) => {
                    return Err(Error::AnnounceUrlParse);
                },
            }
            i += 1;
        }
        assert(normal_forms(all).take(texts.len() as int) =~= normal_forms(all));
        let trackers = without_repeats(&urls);
        let link = MagnetLink {
            infohash,
            name: Some(metainfo.info.name.clone()),
            trackers,
            peers: Vec::new(),
        };
        assert(link@.peers =~= Seq::<HostPortView>::empty());
        Ok(link)
    }

    /// The query of the link, before the URL is serialised.
    pub fn query(&self) -> (query: Vec<u8>)
        ensures
            query@ == self@.query(),
    {
        broadcast use vstd::string::is_ascii_spec_bytes;

        proof {
            reveal_strlit("xt=urn:btih:");
            reveal_strlit("dn");
            reveal_strlit("tr");
            reveal_strlit("x.pe");
        }
        let mut out: Vec<u8> = Vec::new();
        let scheme = "xt=urn:btih:".as_bytes();
        assert(vstd::string::is_ascii("xt=urn:btih:"));
        assert(scheme@ =~= ascii("xt=urn:btih:"@));
        push_all(&mut out, scheme);
        let mut i: usize = 0;
        let ghost head = out@;
        assert(out@ =~= head + hex(self.infohash@).take(0));
        while i < 20
            invariant
                i <= 20,
                out@ == head + hex(self.infohash@).take(2 * i),
            decreases 20 - i,
        {
            let b = self.infohash[i];
            let high = b / 16;
            let low = b % 16;
            out.push(if high < 10 { 48 + high } else { 87 + high });
            out.push(if low < 10 { 48 + low } else { 87 + low });
            assert(out@ =~= head + hex(self.infohash@).take(2 * (i + 1)));
            i += 1;
        }
        assert(hex(self.infohash@).take(40) =~= hex(self.infohash@));
        match &self.name {
            Some(name) => {
                push_pair(&mut out, "dn", name.as_str().as_bytes());
            },
            None => {
                assert(out@ + Seq::<u8>::empty() =~= out@);
            },
        }
        let ghost named = out@;
        let mut t: usize = 0;
        assert(views(self.trackers@).take(0) =~= Seq::<Seq<char>>::empty());
        assert(named + tracker_pairs(views(self.trackers@).take(0)) =~= named);
        while t < self.trackers.len()
            invariant
                t <= self.trackers.len(),
                out@ == named + tracker_pairs(views(self.trackers@).take(t as int)),
            decreases self.trackers.len() - t,
        {
            proof {
                reveal_strlit("tr");
            }
            push_pair(&mut out, "tr", self.trackers[t].as_str().as_bytes());
            proof {
                let ghost all = views(self.trackers@);
                assert(all.take(t + 1).drop_last() =~= all.take(t as int));
                assert(all.take(t + 1).last() == self.trackers[t as int]@);
                assert(out@ =~= named + tracker_pairs(all.take(t + 1)));
            }
            t += 1;
        }
        assert(views(self.trackers@).take(self.trackers.len() as int) =~= views(self.trackers@));
        let ghost with_trackers = out@;
        let mut p: usize = 0;
        assert(views(self.peers@).take(0) =~= Seq::<HostPortView>::empty());
        assert(with_trackers + peer_pairs(views(self.peers@).take(0)) =~= with_trackers);
        while p < self.peers.len()
            invariant
                p <= self.peers.len(),
                out@ == with_trackers + peer_pairs(views(self.peers@).take(p as int)),
            decreases self.peers.len() - p,
        {
            let mut peer: Vec<u8> = Vec::new();
            push_all(&mut peer, self.peers[p].host.as_str().as_bytes());
            peer.push(58u8);
            push_decimal(&mut peer, self.peers[p].port as u64);
            assert(peer@ =~= peer_text(self.peers[p as int]@));
            proof {
                reveal_strlit("x.pe");
            }
            push_pair(&mut out, "x.pe", peer.as_slice());
            proof {
                let ghost all = views(self.peers@);
                assert(all.take(p + 1).drop_last() =~= all.take(p as int));
                assert(all.take(p + 1).last() == self.peers[p as int]@);
                assert(out@ =~= with_trackers + peer_pairs(all.take(p + 1)));
            }
            p += 1;
        }
        assert(views(self.peers@).take(self.peers.len() as int) =~= views(self.peers@));
        out
    }

    /// The link as a URL, with a query whose text is short enough.
    pub fn to_url(&self) -> (r: Option<String>)
        ensures
            optional_text(r) == self@.url(),
    {
        broadcast use vstd::utf8::encode_utf8_decode_utf8;

        proof {
            reveal_strlit("magnet:");
        }
        let query = match string_from_utf8(self.query()) {
            Some(query) => query,
            None => {
                return None;
            },
        };
        if query.as_str().unicode_len() >= URL_LENGTH_LIMIT {
            return None;
        }
        url_set_query("magnet:", query.as_str())
    }
}

} // verus!
