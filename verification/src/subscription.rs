//! The request by which a client subscribes to devices: the serial numbers
//! of the devices and, optionally, a sampling rate and a format.

use crate::bindings::rsplit_spaces;
use crate::decimal::{decimal_digits, decimal_u32, parse_u32, u32_to_string};
use vstd::prelude::*;
use vstd::string::StringExecFns;
use vstd::utf8::encode_utf8;

verus! {

/// What a client asked for. The texts are borrows of the request.
#[derive(Debug, Clone, PartialEq, Eq)]
pub struct DeviceConfig<'a> {
    /// Serial numbers of the devices.
    pub uuid: Vec<&'a str>,
    /// Samples per second.
    pub sampling_rate: Option<u32>,
    /// Name of the format of the answer.
    pub format: Option<&'a str>,
}

/// What a request says, with its texts as sequences of characters.
pub struct DeviceConfigView {
    pub uuid: Seq<Seq<char>>,
    pub sampling_rate: Option<u32>,
    pub format: Option<Seq<char>>,
}

impl<'a> View for DeviceConfig<'a> {
    type V = DeviceConfigView;

    open spec fn view(&self) -> DeviceConfigView {
        DeviceConfigView {
            uuid: texts(self.uuid@),
            sampling_rate: self.sampling_rate,
            format: match self.format {
                Some(name) => Some(name@),
                None => None,
            },
        }
    }
}

/// The texts of `words`.
pub open spec fn texts(words: Seq<&str>) -> Seq<Seq<char>> {
    Seq::new(words.len(), |i: int| words[i]@)
}

/// `words` with a space between each two.
pub open spec fn spaced(words: Seq<Seq<char>>) -> Seq<char>
    decreases words.len(),
{
    if words.len() == 0 {
        Seq::empty()
    } else if words.len() == 1 {
        words[0]
    } else {
        spaced(words.drop_last()) + seq![' '] + words.last()
    }
}

/// Whether `words` are the words of `text`, last word first: there is one
/// at least, none holds a space, and from the last to the first with a
/// space between each two they are `text`.
pub open spec fn splits(words: Seq<Seq<char>>, text: Seq<char>) -> bool {
    &&& words.len() >= 1
    &&& forall|i: int| 0 <= i < words.len() ==> !(#[trigger] words[i]).contains(' ')
    &&& spaced(words.reverse()) == text
}

/// What the words of a request mean. `words` holds them last word first.
/// With two words or more: where the first word is a number, it is the
/// sampling rate and the second word is a serial number; else, where the
/// second word is a number, it is the sampling rate and the first word is
/// the format; else both are serial numbers. All other words are serial
/// numbers, and so is a single word.
pub open spec fn configured(words: Seq<Seq<char>>) -> DeviceConfigView {
    let n = words.len() as int;
    if n == 0 {
        DeviceConfigView { uuid: Seq::empty(), sampling_rate: None, format: None }
    } else if n == 1 {
        DeviceConfigView { uuid: seq![words[0]], sampling_rate: None, format: None }
    } else {
        let first = words[n - 1];
        let second = words[n - 2];
        let others = words.subrange(0, n - 2);
        if decimal_u32(encode_utf8(first)) is Some {
            DeviceConfigView {
                uuid: seq![second] + others,
                sampling_rate: decimal_u32(encode_utf8(first)),
                format: None,
            }
        } else if decimal_u32(encode_utf8(second)) is Some {
            DeviceConfigView {
                uuid: others,
                sampling_rate: decimal_u32(encode_utf8(second)),
                format: Some(first),
            }
        } else {
            DeviceConfigView {
                uuid: seq![first, second] + others,
                sampling_rate: None,
                format: None,
            }
        }
    }
}

/// The words of `text`, last word first: what stands between its single
/// spaces.
pub open spec fn words_from_end(text: Seq<char>) -> Seq<Seq<char>> {
    choose|words: Seq<Seq<char>>| splits(words, text)
}

/// Whether none of `words` holds a space.
pub open spec fn spaceless(words: Seq<Seq<char>>) -> bool {
    forall|i: int| 0 <= i < words.len() ==> !(#[trigger] words[i]).contains(' ')
}

/// Words without spaces are found again in their spaced text: two runs of
/// such words with the same spaced text are the same run.
pub proof fn lemma_spaced_unique(x: Seq<Seq<char>>, y: Seq<Seq<char>>)
    requires
        x.len() >= 1,
        y.len() >= 1,
        spaceless(x),
        spaceless(y),
        spaced(x) == spaced(y),
    ensures
        x == y,
    decreases x.len(),
{
    let text = spaced(x);
    if x.len() == 1 && y.len() == 1 {
        assert(x =~= y);
    } else if x.len() == 1 {
        let at = spaced(y.drop_last()).len() as int;
        assert(spaced(y)[at] == ' ');
        assert(x[0][at] == ' ');
    } else if y.len() == 1 {
        let at = spaced(x.drop_last()).len() as int;
        assert(spaced(x)[at] == ' ');
        assert(y[0][at] == ' ');
    } else {
        let front_x = spaced(x.drop_last());
        let front_y = spaced(y.drop_last());
        let last_x = x.last();
        let last_y = y.last();
        assert(text == front_x + seq![' '] + last_x);
        assert(text == front_y + seq![' '] + last_y);
        if last_x.len() < last_y.len() {
            let at = front_x.len() as int;
            assert(text[at] == ' ');
            assert(last_y[at - front_y.len() - 1] == text[at]);
        } else if last_y.len() < last_x.len() {
            let at = front_y.len() as int;
            assert(text[at] == ' ');
            assert(last_x[at - front_x.len() - 1] == text[at]);
        } else {
            assert(last_x =~= last_y) by {
                assert forall|i: int| 0 <= i < last_x.len() implies last_x[i] == last_y[i] by {
                    assert(last_x[i] == text[front_x.len() + 1 + i]);
                    assert(last_y[i] == text[front_y.len() + 1 + i]);
                }
            }
            assert(front_x =~= front_y) by {
                assert forall|i: int| 0 <= i < front_x.len() implies front_x[i] == front_y[i] by {
                    assert(front_x[i] == text[i]);
                    assert(front_y[i] == text[i]);
                }
            }
            assert(spaceless(x.drop_last())) by {
                assert forall|i: int| 0 <= i < x.drop_last().len() implies !(
                #[trigger] x.drop_last()[i]).contains(' ') by {
                    assert(x.drop_last()[i] == x[i]);
                }
            }
            assert(spaceless(y.drop_last())) by {
                assert forall|i: int| 0 <= i < y.drop_last().len() implies !(
                #[trigger] y.drop_last()[i]).contains(' ') by {
                    assert(y.drop_last()[i] == y[i]);
                }
            }
            lemma_spaced_unique(x.drop_last(), y.drop_last());
            assert(x =~= x.drop_last().push(last_x));
            assert(y =~= y.drop_last().push(last_y));
        }
    }
}

/// A text has one splitting into words.
pub proof fn lemma_splits_unique(a: Seq<Seq<char>>, b: Seq<Seq<char>>, text: Seq<char>)
    requires
        splits(a, text),
        splits(b, text),
    ensures
        a == b,
{
    let x = a.reverse();
    let y = b.reverse();
    assert(spaceless(x)) by {
        assert forall|i: int| 0 <= i < x.len() implies !(#[trigger] x[i]).contains(' ') by {
            assert(x[i] == a[a.len() - 1 - i]);
        }
    }
    assert(spaceless(y)) by {
        assert forall|i: int| 0 <= i < y.len() implies !(#[trigger] y[i]).contains(' ') by {
            assert(y[i] == b[b.len() - 1 - i]);
        }
    }
    lemma_spaced_unique(x, y);
    assert(a =~= x.reverse());
    assert(b =~= y.reverse());
}

/// A request written out: the serial numbers with spaces between them,
/// then a space and the sampling rate where there is one, then a space and
/// the format where there is one.
pub open spec fn rendered(config: DeviceConfigView) -> Seq<char> {
    spaced(config.uuid) + (match config.sampling_rate {
        Some(rate) => seq![' '] + decimal_digits(rate as nat),
        None => Seq::empty(),
    }) + (match config.format {
        Some(name) => seq![' '] + name,
        None => Seq::empty(),
    })
}

impl<'a> DeviceConfig<'a> {
    /// Reads a request from its words, given last word first.
    pub fn from_words(words: Vec<&'a str>) -> (config: DeviceConfig<'a>)
        ensures
            config@ == configured(texts(words@)),
    {
        let ghost all = texts(words@);
        let mut words = words;
        let mut config = DeviceConfig { uuid: Vec::new(), sampling_rate: None, format: None };
        let first = words.pop();
        let second = words.pop();
        match (first, second) {
            (Some(first), Some(second)) => {
                match parse_u32(first) {
                    Some(rate) => {
                        config.sampling_rate = Some(rate);
                        config.uuid.push(second);
                    },
                    None => match parse_u32(second) {
                        Some(rate) => {
                            config.sampling_rate = Some(rate);
                            config.format = Some(first);
                        },
                        None => {
                            config.uuid.push(first);
                            config.uuid.push(second);
                        },
                    },
                }
            },
            (Some(first), None) => {
                config.uuid.push(first);
            },
            (None, _) => {},
        }
        config.uuid.append(&mut words);
        proof {
            assert(config@.uuid =~= configured(all).uuid);
        }
        config
    }

    /// Reads a request: its words are what stands between single spaces.
    pub fn parse(text: &'a str) -> (config: DeviceConfig<'a>)
        ensures
            splits(words_from_end(text@), text@),
            config@ == configured(words_from_end(text@)),
    {
        let words = rsplit_spaces(text);
        let ghost found = texts(words@);
        let config = DeviceConfig::from_words(words);
        proof {
            assert(splits(found, text@));
            lemma_splits_unique(found, words_from_end(text@), text@);
        }
        config
    }

    /// Writes the request out.
    pub fn to_text(&self) -> (text: String)
        ensures
            text@ == rendered(self@),
    {
        let mut out = String::new();
        let mut i: usize = 0;
        proof {
            reveal_strlit(" ");
            assert(" "@ =~= seq![' ']);
            assert(texts(self.uuid@).subrange(0, 0) =~= Seq::<Seq<char>>::empty());
            assert(out@ =~= Seq::<char>::empty());
        }
        while i < self.uuid.len()
            invariant
                i <= self.uuid.len(),
                " "@ == seq![' '],
                out@ == spaced(texts(self.uuid@).subrange(0, i as int)),
            decreases self.uuid.len() - i,
        {
            let ghost before = texts(self.uuid@).subrange(0, i as int);
            let ghost next = texts(self.uuid@).subrange(0, i + 1);
            proof {
                assert(next.drop_last() =~= before);
                assert(next.last() == self.uuid@[i as int]@);
            }
            if i > 0 {
                out.append(" ");
            }
            out.append(self.uuid[i]);
            proof {
                if i == 0 {
                    assert(out@ =~= next[0]);
                }
            }
            i = i + 1;
        }
        proof {
            assert(texts(self.uuid@).subrange(0, i as int) =~= texts(self.uuid@));
        }
        let ghost names = out@;
        match self.sampling_rate {
            Some(rate) => {
                out.append(" ");
                let digits = u32_to_string(rate);
                out.append(digits.as_str());
                proof {
                    assert(out@ =~= names + (seq![' '] + decimal_digits(rate as nat)));
                }
            },
            None => {
                proof {
                    assert(out@ =~= names + Seq::<char>::empty());
                }
            },
        }
        let ghost with_rate = out@;
        match self.format {
            Some(name) => {
                out.append(" ");
                out.append(name);
                proof {
                    assert(out@ =~= with_rate + (seq![' '] + name@));
                }
            },
            None => {
                proof {
                    assert(out@ =~= with_rate + Seq::<char>::empty());
                }
            },
        }
        out
    }
}

} // verus!
