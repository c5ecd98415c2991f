use xray_oxide_core::lzhuf::{d_code, d_len};
use xray_oxide_core::{decompress, DecodeError, Decoder};

const N: usize = 4096;
const F: usize = 60;
const THRESHOLD: usize = 2;
const N_CHAR: usize = 256 - THRESHOLD + F;
const T: usize = N_CHAR * 2 - 1;
const R: usize = T - 1;
const MAX_FREQ: u32 = 0x4000;

const P_LEN: [u8; 64] = [
    0x03, 0x04, 0x04, 0x04, 0x05, 0x05, 0x05, 0x05, 0x05, 0x05, 0x05, 0x05, 0x06, 0x06, 0x06, 0x06,
    0x06, 0x06, 0x06, 0x06, 0x06, 0x06, 0x06, 0x06, 0x07, 0x07, 0x07, 0x07, 0x07, 0x07, 0x07, 0x07,
    0x07, 0x07, 0x07, 0x07, 0x07, 0x07, 0x07, 0x07, 0x07, 0x07, 0x07, 0x07, 0x07, 0x07, 0x07, 0x07,
    0x08, 0x08, 0x08, 0x08, 0x08, 0x08, 0x08, 0x08, 0x08, 0x08, 0x08, 0x08, 0x08, 0x08, 0x08, 0x08,
];

const P_CODE: [u8; 64] = [
    0x00, 0x20, 0x30, 0x40, 0x50, 0x58, 0x60, 0x68, 0x70, 0x78, 0x80, 0x88, 0x90, 0x94, 0x98, 0x9C,
    0xA0, 0xA4, 0xA8, 0xAC, 0xB0, 0xB4, 0xB8, 0xBC, 0xC0, 0xC2, 0xC4, 0xC6, 0xC8, 0xCA, 0xCC, 0xCE,
    0xD0, 0xD2, 0xD4, 0xD6, 0xD8, 0xDA, 0xDC, 0xDE, 0xE0, 0xE2, 0xE4, 0xE6, 0xE8, 0xEA, 0xEC, 0xEE,
    0xF0, 0xF1, 0xF2, 0xF3, 0xF4, 0xF5, 0xF6, 0xF7, 0xF8, 0xF9, 0xFA, 0xFB, 0xFC, 0xFD, 0xFE, 0xFF,
];

const D_CODE: [u8; 256] = [
    0x00, 0x00, 0x00, 0x00, 0x00, 0x00, 0x00, 0x00, 0x00, 0x00, 0x00, 0x00, 0x00, 0x00, 0x00, 0x00,
    0x00, 0x00, 0x00, 0x00, 0x00, 0x00, 0x00, 0x00, 0x00, 0x00, 0x00, 0x00, 0x00, 0x00, 0x00, 0x00,
    0x01, 0x01, 0x01, 0x01, 0x01, 0x01, 0x01, 0x01, 0x01, 0x01, 0x01, 0x01, 0x01, 0x01, 0x01, 0x01,
    0x02, 0x02, 0x02, 0x02, 0x02, 0x02, 0x02, 0x02, 0x02, 0x02, 0x02, 0x02, 0x02, 0x02, 0x02, 0x02,
    0x03, 0x03, 0x03, 0x03, 0x03, 0x03, 0x03, 0x03, 0x03, 0x03, 0x03, 0x03, 0x03, 0x03, 0x03, 0x03,
    0x04, 0x04, 0x04, 0x04, 0x04, 0x04, 0x04, 0x04, 0x05, 0x05, 0x05, 0x05, 0x05, 0x05, 0x05, 0x05,
    0x06, 0x06, 0x06, 0x06, 0x06, 0x06, 0x06, 0x06, 0x07, 0x07, 0x07, 0x07, 0x07, 0x07, 0x07, 0x07,
    0x08, 0x08, 0x08, 0x08, 0x08, 0x08, 0x08, 0x08, 0x09, 0x09, 0x09, 0x09, 0x09, 0x09, 0x09, 0x09,
    0x0A, 0x0A, 0x0A, 0x0A, 0x0A, 0x0A, 0x0A, 0x0A, 0x0B, 0x0B, 0x0B, 0x0B, 0x0B, 0x0B, 0x0B, 0x0B,
    0x0C, 0x0C, 0x0C, 0x0C, 0x0D, 0x0D, 0x0D, 0x0D, 0x0E, 0x0E, 0x0E, 0x0E, 0x0F, 0x0F, 0x0F, 0x0F,
    0x10, 0x10, 0x10, 0x10, 0x11, 0x11, 0x11, 0x11, 0x12, 0x12, 0x12, 0x12, 0x13, 0x13, 0x13, 0x13,
    0x14, 0x14, 0x14, 0x14, 0x15, 0x15, 0x15, 0x15, 0x16, 0x16, 0x16, 0x16, 0x17, 0x17, 0x17, 0x17,
    0x18, 0x18, 0x19, 0x19, 0x1A, 0x1A, 0x1B, 0x1B, 0x1C, 0x1C, 0x1D, 0x1D, 0x1E, 0x1E, 0x1F, 0x1F,
    0x20, 0x20, 0x21, 0x21, 0x22, 0x22, 0x23, 0x23, 0x24, 0x24, 0x25, 0x25, 0x26, 0x26, 0x27, 0x27,
    0x28, 0x28, 0x29, 0x29, 0x2A, 0x2A, 0x2B, 0x2B, 0x2C, 0x2C, 0x2D, 0x2D, 0x2E, 0x2E, 0x2F, 0x2F,
    0x30, 0x31, 0x32, 0x33, 0x34, 0x35, 0x36, 0x37, 0x38, 0x39, 0x3A, 0x3B, 0x3C, 0x3D, 0x3E, 0x3F,
];

const D_LEN: [u8; 256] = [
    0x03, 0x03, 0x03, 0x03, 0x03, 0x03, 0x03, 0x03, 0x03, 0x03, 0x03, 0x03, 0x03, 0x03, 0x03, 0x03,
    0x03, 0x03, 0x03, 0x03, 0x03, 0x03, 0x03, 0x03, 0x03, 0x03, 0x03, 0x03, 0x03, 0x03, 0x03, 0x03,
    0x04, 0x04, 0x04, 0x04, 0x04, 0x04, 0x04, 0x04, 0x04, 0x04, 0x04, 0x04, 0x04, 0x04, 0x04, 0x04,
    0x04, 0x04, 0x04, 0x04, 0x04, 0x04, 0x04, 0x04, 0x04, 0x04, 0x04, 0x04, 0x04, 0x04, 0x04, 0x04,
    0x04, 0x04, 0x04, 0x04, 0x04, 0x04, 0x04, 0x04, 0x04, 0x04, 0x04, 0x04, 0x04, 0x04, 0x04, 0x04,
    0x05, 0x05, 0x05, 0x05, 0x05, 0x05, 0x05, 0x05, 0x05, 0x05, 0x05, 0x05, 0x05, 0x05, 0x05, 0x05,
    0x05, 0x05, 0x05, 0x05, 0x05, 0x05, 0x05, 0x05, 0x05, 0x05, 0x05, 0x05, 0x05, 0x05, 0x05, 0x05,
    0x05, 0x05, 0x05, 0x05, 0x05, 0x05, 0x05, 0x05, 0x05, 0x05, 0x05, 0x05, 0x05, 0x05, 0x05, 0x05,
    0x05, 0x05, 0x05, 0x05, 0x05, 0x05, 0x05, 0x05, 0x05, 0x05, 0x05, 0x05, 0x05, 0x05, 0x05, 0x05,
    0x06, 0x06, 0x06, 0x06, 0x06, 0x06, 0x06, 0x06, 0x06, 0x06, 0x06, 0x06, 0x06, 0x06, 0x06, 0x06,
    0x06, 0x06, 0x06, 0x06, 0x06, 0x06, 0x06, 0x06, 0x06, 0x06, 0x06, 0x06, 0x06, 0x06, 0x06, 0x06,
    0x06, 0x06, 0x06, 0x06, 0x06, 0x06, 0x06, 0x06, 0x06, 0x06, 0x06, 0x06, 0x06, 0x06, 0x06, 0x06,
    0x07, 0x07, 0x07, 0x07, 0x07, 0x07, 0x07, 0x07, 0x07, 0x07, 0x07, 0x07, 0x07, 0x07, 0x07, 0x07,
    0x07, 0x07, 0x07, 0x07, 0x07, 0x07, 0x07, 0x07, 0x07, 0x07, 0x07, 0x07, 0x07, 0x07, 0x07, 0x07,
    0x07, 0x07, 0x07, 0x07, 0x07, 0x07, 0x07, 0x07, 0x07, 0x07, 0x07, 0x07, 0x07, 0x07, 0x07, 0x07,
    0x08, 0x08, 0x08, 0x08, 0x08, 0x08, 0x08, 0x08, 0x08, 0x08, 0x08, 0x08, 0x08, 0x08, 0x08, 0x08,
];

/// A symbol of an LZH stream: a literal byte, or a match of `len` bytes
/// whose source lies `pos + 1` bytes back.
#[derive(Clone, Copy)]
enum Tok {
    Lit(u8),
    Match { pos: usize, len: usize },
}

/// The matching encoder, written independently of the library.
struct Encoder {
    freq: Vec<u32>,
    son: Vec<usize>,
    parent: Vec<usize>,
    putbuf: u32,
    putlen: u32,
    out: Vec<u8>,
}

impl Encoder {
    fn new() -> Encoder {
        let mut e = Encoder {
            freq: vec![0; T + 1],
            son: vec![0; T],
            parent: vec![0; T + N_CHAR + 1],
            putbuf: 0,
            putlen: 0,
            out: Vec::new(),
        };
        for i in 0..N_CHAR {
            e.freq[i] = 1;
            e.son[i] = i + T;
            e.parent[i + T] = i;
        }
        let mut i = 0;
        let mut j = N_CHAR;
        while j <= R {
            e.freq[j] = e.freq[i] + e.freq[i + 1];
            e.son[j] = i;
            e.parent[i] = j;
            e.parent[i + 1] = j;
            i += 2;
            j += 1;
        }
        e.freq[T] = 0xFFFF;
        e.parent[R] = 0;
        e
    }

    fn reconst(&mut self) {
        let mut j = 0;
        for i in 0..T {
            if self.son[i] >= T {
                self.freq[j] = (self.freq[i] + 1) / 2;
                self.son[j] = self.son[i];
                j += 1;
            }
        }
        let mut i = 0;
        for j in N_CHAR..T {
            let f = self.freq[i] + self.freq[i + 1];
            self.freq[j] = f;
            let mut k = j - 1;
            while f < self.freq[k] {
                k -= 1;
            }
            k += 1;
            let mut m = j;
            while m > k {
                self.freq[m] = self.freq[m - 1];
                self.son[m] = self.son[m - 1];
                m -= 1;
            }
            self.freq[k] = f;
            self.son[k] = i;
            i += 2;
        }
        for i in 0..T {
            let k = self.son[i];
            self.parent[k] = i;
            if k < T {
                self.parent[k + 1] = i;
            }
        }
    }

    fn update(&mut self, c: usize) {
        if self.freq[R] == MAX_FREQ {
            self.reconst();
        }
        let mut c = self.parent[c + T];
        loop {
            self.freq[c] += 1;
            let k = self.freq[c];
            let mut l = c + 1;
            if k > self.freq[l] {
                l += 1;
                while k > self.freq[l] {
                    l += 1;
                }
                l -= 1;
                self.freq[c] = self.freq[l];
                self.freq[l] = k;
                let i = self.son[c];
                self.parent[i] = l;
                if i < T {
                    self.parent[i + 1] = l;
                }
                let j = self.son[l];
                self.son[l] = i;
                self.parent[j] = c;
                if j < T {
                    self.parent[j + 1] = c;
                }
                self.son[c] = j;
                c = l;
            }
            c = self.parent[c];
            if c == 0 {
                break;
            }
        }
    }

    fn putcode(&mut self, l: u32, c: u32) {
        self.putbuf |= c >> self.putlen;
        self.putlen += l;
        if self.putlen >= 8 {
            self.out.push((self.putbuf >> 8) as u8);
            self.putlen -= 8;
            if self.putlen >= 8 {
                self.out.push(self.putbuf as u8);
                self.putlen -= 8;
                self.putbuf = (c << (l - self.putlen)) & 0xFFFF;
            } else {
                self.putbuf = (self.putbuf << 8) & 0xFFFF;
            }
        }
    }

    fn encode_char(&mut self, c: usize) {
        let mut code: u32 = 0;
        let mut len: u32 = 0;
        let mut k = self.parent[c + T];
        loop {
            code >>= 1;
            if k & 1 == 1 {
                code += 0x8000;
            }
            len += 1;
            k = self.parent[k];
            if k == R {
                break;
            }
        }
        self.putcode(len, code);
        self.update(c);
    }

    fn encode_position(&mut self, c: usize) {
        let i = c >> 6;
        self.putcode(P_LEN[i] as u32, (P_CODE[i] as u32) << 8);
        self.putcode(6, ((c & 0x3F) << 10) as u32);
    }

    fn finish(mut self) -> Vec<u8> {
        if self.putlen > 0 {
            self.out.push((self.putbuf >> 8) as u8);
        }
        self.out
    }
}

fn encode_tokens(size: u32, toks: &[Tok]) -> Vec<u8> {
    let mut e = Encoder::new();
    for t in toks {
        match *t {
            Tok::Lit(b) => e.encode_char(b as usize),
            Tok::Match { pos, len } => {
                e.encode_char(255 - THRESHOLD + len);
                e.encode_position(pos);
            }
        }
    }
    let mut out = size.to_le_bytes().to_vec();
    out.extend(e.finish());
    out
}

/// Greedy LZSS over the bytes written so far, with distances up to 64.
fn encode(data: &[u8]) -> Vec<u8> {
    let mut toks = Vec::new();
    let mut q = 0;
    while q < data.len() {
        let mut best_len = 0;
        let mut best_d = 0;
        for d in 1..=64.min(q) {
            let mut l = 0;
            while l < F && q + l < data.len() && data[q + l - d] == data[q + l] {
                l += 1;
            }
            if l > best_len {
                best_len = l;
                best_d = d;
            }
        }
        if best_len > THRESHOLD {
            toks.push(Tok::Match { pos: best_d - 1, len: best_len });
            q += best_len;
        } else {
            toks.push(Tok::Lit(data[q]));
            q += 1;
        }
    }
    encode_tokens(data.len() as u32, &toks)
}

fn sample_text(n: usize) -> Vec<u8> {
    let words: [&[u8]; 6] = [b"texture ", b"shader ", b"level ", b"sound ", b"\n", b"gamedata\\"];
    let mut seed: u32 = 12345;
    let mut out = Vec::new();
    while out.len() < n {
        seed = seed.wrapping_mul(1103515245).wrapping_add(12345);
        if seed % 3 == 0 {
            out.push((seed >> 16) as u8);
        } else {
            out.extend_from_slice(words[((seed >> 8) % 6) as usize]);
        }
    }
    out.truncate(n);
    out
}

#[test]
fn test_decode() {
    let decoded_data = sample_text(3000);
    let encoded_data = encode(&decoded_data);
    let test_decoded = Decoder::new(&encoded_data).decode().unwrap();

    assert_eq!(test_decoded, decoded_data);
}

#[test]
fn decoder_smoke_abcd() {
    let encoded = encode(b"ABCD");
    assert_eq!(&encoded[..4], &[0x04, 0x00, 0x00, 0x00]);
    assert_eq!(decompress(&encoded).unwrap(), b"ABCD".to_vec());
}

#[test]
fn round_trip_with_rescaled_tree() {
    // More than 0x4000 symbols: the tree is rescaled at least once.
    let mut data = Vec::new();
    let mut seed: u32 = 7;
    for _ in 0..20000 {
        seed = seed.wrapping_mul(1664525).wrapping_add(1013904223);
        data.push((seed >> 24) as u8);
    }
    let encoded = encode(&data);
    assert_eq!(decompress(&encoded).unwrap(), data);
}

#[test]
fn round_trip_repetitive() {
    let data = b"abcabcabcabcabcabcabcabcabcabcabcabcabcabcabcabcabcabcabcabcabcabcabcabcabcabcabcabc".to_vec();
    let encoded = encode(&data);
    assert!(encoded.len() < data.len());
    assert_eq!(decompress(&encoded).unwrap(), data);
}

#[test]
fn empty_stream_decodes_to_nothing() {
    assert_eq!(decompress(&[0, 0, 0, 0]).unwrap(), Vec::<u8>::new());
    assert_eq!(decompress(&[0, 0, 0, 0, 0xFF, 0x12]).unwrap(), Vec::<u8>::new());
}

#[test]
fn short_stream_is_an_error() {
    assert_eq!(decompress(&[1, 0, 0]), Err(DecodeError::MissingLength));
    assert_eq!(decompress(&[]), Err(DecodeError::MissingLength));
}

#[test]
fn first_match_reads_initial_spaces() {
    let encoded = encode_tokens(10, &[Tok::Match { pos: 100, len: 10 }]);
    assert_eq!(decompress(&encoded).unwrap(), vec![0x20u8; 10]);
}

#[test]
fn match_crossing_the_count_is_written_whole() {
    let encoded = encode_tokens(2, &[Tok::Lit(b'x'), Tok::Match { pos: 0, len: 5 }]);
    assert_eq!(decompress(&encoded).unwrap(), b"xxxxxx".to_vec());
}

#[test]
fn truncated_bits_read_as_zero() {
    // Three symbols are owed but no bits follow: the zero bits decode
    // deterministically, and the output has the declared length.
    let out = decompress(&[3, 0, 0, 0]).unwrap();
    assert_eq!(out.len() >= 3, true);
    assert_eq!(decompress(&[3, 0, 0, 0]).unwrap(), out);
}

#[test]
fn distance_tables_match_the_format() {
    for i in 0..256usize {
        assert_eq!(d_code(i as u8), D_CODE[i], "D_CODE[{}]", i);
        assert_eq!(d_len(i as u8), D_LEN[i], "D_LEN[{}]", i);
    }
}

#[test]
fn long_distance_match() {
    let mut toks = Vec::new();
    let mut data = Vec::new();
    for i in 0..200u32 {
        let b = (i * 7 % 251) as u8;
        toks.push(Tok::Lit(b));
        data.push(b);
    }
    // Copy 20 bytes from 150 back.
    toks.push(Tok::Match { pos: 149, len: 20 });
    for k in 0..20 {
        data.push(data[50 + k]);
    }
    let encoded = encode_tokens(data.len() as u32, &toks);
    assert_eq!(decompress(&encoded).unwrap(), data);
}

fn record(ty: u32, payload: &[u8]) -> Vec<u8> {
    let mut v = ty.to_le_bytes().to_vec();
    v.extend((payload.len() as u32).to_le_bytes());
    v.extend_from_slice(payload);
    v
}

#[test]
fn compressed_header_chunk() {
    let text = b"[header]\nauto_load=on\nentry_point=$game_data$\\foo\n";
    let data = record(0x8000029A, &encode(text));
    assert_eq!(xray_oxide_core::open_chunk(&data, 666).unwrap(), text.to_vec());
}

#[test]
fn compression_flag_is_transparent() {
    let payload = sample_text(500);
    let plain = record(7, &payload);
    let packed = record(7 | 0x8000_0000, &encode(&payload));
    assert_eq!(xray_oxide_core::open_chunk(&plain, 7).unwrap(), payload.clone());
    assert_eq!(xray_oxide_core::open_chunk(&packed, 7).unwrap(), payload);
}
