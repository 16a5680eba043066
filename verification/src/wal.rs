//! Bookkeeping of the write-ahead log: the size of the active log file and
//! the number of immutable log files beside it.
use vstd::prelude::*;

use crate::decimal::{
    dec, lemma_dec_numeral, lemma_leading_zeros, numeral_value, push_char, push_dec,
};

verus! {

/// `s` padded on the left with `'0'` to at least `width` characters.
pub open spec fn zero_pad(s: Seq<char>, width: nat) -> Seq<char> {
    if s.len() >= width {
        s
    } else {
        Seq::new((width - s.len()) as nat, |i: int| '0') + s
    }
}

/// The name of a log file: `wal.log` for the active file, and for immutable
/// file `i`, `imm-wal` then `i` in decimal padded with zeros to five digits,
/// then `.log`.
pub open spec fn wal_file_name(id: Option<usize>) -> Seq<char> {
    match id {
        None => seq!['w', 'a', 'l', '.', 'l', 'o', 'g'],
        Some(i) => seq!['i', 'm', 'm', '-', 'w', 'a', 'l'] + zero_pad(dec(i as nat), 5) + seq![
            '.',
            'l',
            'o',
            'g',
        ],
    }
}

/// The padded numeral of `i` is at least five characters long and denotes `i`.
proof fn lemma_padded_numeral(i: nat)
    ensures
        zero_pad(dec(i), 5).len() >= 5,
        numeral_value(zero_pad(dec(i), 5)) == i,
{
    lemma_dec_numeral(i);
    let d = dec(i);
    if d.len() < 5 {
        let k = (5 - d.len()) as nat;
        assert(zero_pad(d, 5) =~= Seq::new(k, |j: int| '0') + d);
        lemma_leading_zeros(k, d);
    }
}

/// Law: different log files have different names, so freezing the active
/// file never overwrites another log file.
pub proof fn law_wal_file_names_distinct(a: Option<usize>, b: Option<usize>)
    requires
        a != b,
    ensures
        wal_file_name(a) != wal_file_name(b),
{
    let na = wal_file_name(a);
    let nb = wal_file_name(b);
    match (a, b) {
        (Some(i), Some(j)) => {
            lemma_padded_numeral(i as nat);
            lemma_padded_numeral(j as nat);
            let pa = zero_pad(dec(i as nat), 5);
            let pb = zero_pad(dec(j as nat), 5);
            assert(na.subrange(7, na.len() - 4) =~= pa);
            assert(nb.subrange(7, nb.len() - 4) =~= pb);
            if na == nb {
                assert(pa == pb);
            }
        },
        (Some(i), None) => {
            lemma_padded_numeral(i as nat);
        },
        (None, Some(j)) => {
            lemma_padded_numeral(j as nat);
        },
        (None, None) => {},
    }
}

/// Appends `"log"` preceded by a dot.
fn push_log_suffix(s: &mut String)
    ensures
        final(s)@ == old(s)@ + seq!['.', 'l', 'o', 'g'],
{
    push_char(s, '.');
    push_char(s, 'l');
    push_char(s, 'o');
    push_char(s, 'g');
    assert(final(s)@ =~= old(s)@ + seq!['.', 'l', 'o', 'g']);
}

/// The file name of the log file `id`: `None` names the active file, `Some(i)`
/// the immutable file `i`.
pub fn get_wal_file_name(id: Option<usize>) -> (name: String)
    ensures
        name@ == wal_file_name(id),
{
    let mut name = String::new();
    match id {
        None => {
            push_char(&mut name, 'w');
            push_char(&mut name, 'a');
            push_char(&mut name, 'l');
            push_log_suffix(&mut name);
            assert(name@ =~= wal_file_name(id));
        },
        Some(i) => {
            push_char(&mut name, 'i');
            push_char(&mut name, 'm');
            push_char(&mut name, 'm');
            push_char(&mut name, '-');
            push_char(&mut name, 'w');
            push_char(&mut name, 'a');
            push_char(&mut name, 'l');
            let ghost prefix = name@;
            let mut digits = String::new();
            push_dec(&mut digits, i);
            assert(digits@ =~= dec(i as nat));
            let n = digits.unicode_len();
            let mut pad = n;
            while pad < 5
                invariant
                    n <= pad <= 5 || (n > 5 && pad == n),
                    n == dec(i as nat).len(),
                    name@ == prefix + Seq::new((pad - n) as nat, |j: int| '0'),
                decreases 5 - pad,
            {
                push_char(&mut name, '0');
                pad = pad + 1;
                assert(name@ =~= prefix + Seq::new((pad - n) as nat, |j: int| '0'));
            }
            name.append(digits.as_str());
            push_log_suffix(&mut name);
            assert(name@ =~= wal_file_name(id));
        },
    }
    name
}

/// The counters of the write-ahead log.
pub struct WAL {
    file_sz: usize,
    next_imm_wal_idx: usize,
}

impl WAL {
    /// The size in bytes of the active log file.
    pub closed spec fn size(&self) -> nat {
        self.file_sz as nat
    }

    /// The number of immutable log files; the next one gets this number.
    pub closed spec fn imm_count(&self) -> nat {
        self.next_imm_wal_idx as nat
    }

    /// The counters of a log directory whose active file holds `file_sz`
    /// bytes and which holds `dir_entries` files in all (the active file and
    /// the immutable ones).
    pub fn open(file_sz: usize, dir_entries: usize) -> (wal: WAL)
        requires
            dir_entries >= 1,
        ensures
            wal.size() == file_sz,
            wal.imm_count() == dir_entries - 1,
    {
        WAL { file_sz, next_imm_wal_idx: dir_entries - 1 }
    }

    /// The number of immutable log files.
    pub fn get_imm_num(&self) -> (n: usize)
        ensures
            n == self.imm_count(),
    {
        self.next_imm_wal_idx
    }

    /// The size in bytes of the active log file.
    pub fn get_wal_sz(&self) -> (n: usize)
        ensures
            n == self.size(),
    {
        self.file_sz
    }

    /// Accounts for `len` bytes written to the end of the active file.
    pub fn write(&mut self, len: usize)
        requires
            old(self).size() + len <= usize::MAX,
        ensures
            final(self).size() == old(self).size() + len,
            final(self).imm_count() == old(self).imm_count(),
    {
        self.file_sz = self.file_sz + len;
    }

    /// The active file has been frozen into a new immutable file and emptied.
    pub fn incr_next_wal(&mut self)
        requires
            old(self).imm_count() < usize::MAX,
        ensures
            final(self).size() == 0,
            final(self).imm_count() == old(self).imm_count() + 1,
    {
        self.file_sz = 0;
        self.next_imm_wal_idx = self.next_imm_wal_idx + 1;
    }
}

} // verus!
