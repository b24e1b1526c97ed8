//! The canonical byte form of commands, transactions and blocks.
//!
//! A structure is written field by field in the order of its declaration, a
//! tagged union as the position of its variant, counted from zero, followed
//! by the fields of that variant.

use crate::codec::{
    decoded, lemma_decode_encode, lemma_concat_assoc, lemma_skip_concat, all_encodable, byte_string_bytes, i64_bytes, items_bytes, lemma_byte_string_roundtrip,
    lemma_i64_roundtrip, lemma_items_bytes_push, lemma_optional_bytes_roundtrip,
    lemma_parse_byte_string_bounds, lemma_parse_i64_bounds, lemma_parse_items_stays_none,
    lemma_parse_optional_bytes_bounds, lemma_parse_sequence_bounds, lemma_parse_string_bounds,
    lemma_parse_u32_bounds, lemma_parse_varint_bounds, lemma_sequence_roundtrip, lemma_skip_skip,
    lemma_string_roundtrip, lemma_u32_roundtrip, lemma_varint_roundtrip, optional_bytes,
    parse_byte_string, parse_i64, parse_items, parse_optional_bytes, parse_sequence, parse_string,
    parse_u32, parse_varint, read_byte_string, read_i64, read_optional_bytes, read_string,
    read_u32, read_varint, sequence_bytes, string_bytes, u32_bytes, varint_bytes,
    write_byte_string, write_i64, write_optional_bytes, write_string, write_u32, write_varint,
    Wire,
};
use crate::errors::LedgerError;
use crate::state::{
    blocks_view, commands_view, transactions_view, Block, BlockView, Command,
    CommandView, Transaction, TransactionView,
};
use vstd::prelude::*;
use vstd::utf8::*;

verus! {

impl Wire for CommandView {
    open spec fn encodable(self) -> bool {
        match self {
            CommandView::CreateAccount { public_key } => encode_utf8(public_key).len() <= u64::MAX,
            CommandView::AddFunds { asset_id, .. } => encode_utf8(asset_id).len() <= u64::MAX,
            CommandView::TransferFunds { asset_id, .. } => encode_utf8(asset_id).len() <= u64::MAX,
        }
    }

    open spec fn form(self) -> Seq<u8> {
        match self {
            CommandView::CreateAccount { public_key } => u32_bytes(0) + string_bytes(public_key),
            CommandView::AddFunds { account_id, value, asset_id } => u32_bytes(1) + u32_bytes(
                account_id,
            ) + u32_bytes(value) + string_bytes(asset_id),
            CommandView::TransferFunds {
                account_from_id,
                account_to_id,
                value,
                asset_id,
            } => u32_bytes(2) + u32_bytes(account_from_id) + u32_bytes(account_to_id) + u32_bytes(
                value,
            ) + string_bytes(asset_id),
        }
    }

    open spec fn parse(input: Seq<u8>) -> Option<(CommandView, int)> {
        match parse_u32(input) {
            Some((tag, n0)) => {
                if tag == 0 {
                    match parse_string(input.skip(n0)) {
                        Some((public_key, n1)) => Some(
                            (CommandView::CreateAccount { public_key }, n0 + n1),
                        ),
                        None => None,
                    }
                } else if tag == 1 {
                    match parse_u32(input.skip(n0)) {
                        Some((account_id, n1)) => match parse_u32(input.skip(n0 + n1)) {
                            Some((value, n2)) => match parse_string(input.skip(n0 + n1 + n2)) {
                                Some((asset_id, n3)) => Some(
                                    (
                                        CommandView::AddFunds { account_id, value, asset_id },
                                        n0 + n1 + n2 + n3,
                                    ),
                                ),
                                None => None,
                            },
                            None => None,
                        },
                        None => None,
                    }
                } else if tag == 2 {
                    match parse_u32(input.skip(n0)) {
                        Some((account_from_id, n1)) => match parse_u32(input.skip(n0 + n1)) {
                            Some((account_to_id, n2)) => match parse_u32(
                                input.skip(n0 + n1 + n2),
                            ) {
                                Some((value, n3)) => match parse_string(
                                    input.skip(n0 + n1 + n2 + n3),
                                ) {
                                    Some((asset_id, n4)) => Some(
                                        (
                                            CommandView::TransferFunds {
                                                account_from_id,
                                                account_to_id,
                                                value,
                                                asset_id,
                                            },
                                            n0 + n1 + n2 + n3 + n4,
                                        ),
                                    ),
                                    None => None,
                                },
                                None => None,
                            },
                            None => None,
                        },
                        None => None,
                    }
                } else {
                    None
                }
            },
            None => None,
        }
    }

    proof fn lemma_parse_bounds(input: Seq<u8>) {
        lemma_parse_u32_bounds(input);
        match parse_u32(input) {
            Some((tag, n0)) => {
                let r0 = input.skip(n0);
                lemma_parse_string_bounds(r0);
                lemma_parse_u32_bounds(r0);
                match parse_u32(r0) {
                    Some((_, n1)) => {
                        let r1 = input.skip(n0 + n1);
                        lemma_parse_u32_bounds(r1);
                        match parse_u32(r1) {
                            Some((_, n2)) => {
                                let r2 = input.skip(n0 + n1 + n2);
                                lemma_parse_string_bounds(r2);
                                lemma_parse_u32_bounds(r2);
                                match parse_u32(r2) {
                                    Some((_, n3)) => {
                                        lemma_parse_string_bounds(input.skip(n0 + n1 + n2 + n3));
                                    },
                                    None => {},
                                }
                            },
                            None => {},
                        }
                    },
                    None => {},
                }
            },
            None => {},
        }
    }

    proof fn lemma_roundtrip(self, rest: Seq<u8>) {
        let input = self.form() + rest;
        match self {
            CommandView::CreateAccount { public_key } => {
                let a0 = u32_bytes(0);
                let a1 = string_bytes(public_key);
                let r0 = a1 + rest;
                assert(input == a0 + r0) by {
                    lemma_concat_assoc(a0, a1, rest);
                }
                assert(parse_u32(input) == Some((0u32, a0.len() as int))) by {
                    lemma_u32_roundtrip(0, r0);
                }
                assert(input.skip(a0.len() as int) == r0) by {
                    lemma_skip_concat(a0, r0);
                }
                assert(parse_string(r0) == Some((public_key, a1.len() as int))) by {
                    lemma_string_roundtrip(public_key, rest);
                }
            },
            CommandView::AddFunds { account_id, value, asset_id } => {
                let a0 = u32_bytes(1);
                let a1 = u32_bytes(account_id);
                let a2 = u32_bytes(value);
                let a3 = string_bytes(asset_id);
                let r2 = a3 + rest;
                let r1 = a2 + r2;
                let r0 = a1 + r1;
                let n0 = a0.len() as int;
                let n1 = a1.len() as int;
                let n2 = a2.len() as int;
                assert(input == a0 + r0) by {
                    lemma_concat_assoc(a0 + a1 + a2, a3, rest);
                    lemma_concat_assoc(a0 + a1, a2, r2);
                    lemma_concat_assoc(a0, a1, r1);
                }
                assert(parse_u32(input) == Some((1u32, n0))) by {
                    lemma_u32_roundtrip(1, r0);
                }
                assert(input.skip(n0) == r0) by {
                    lemma_skip_concat(a0, r0);
                }
                assert(parse_u32(r0) == Some((account_id, n1))) by {
                    lemma_u32_roundtrip(account_id, r1);
                }
                assert(input.skip(n0 + n1) == r1) by {
                    lemma_skip_skip(input, n0, n1);
                    lemma_skip_concat(a1, r1);
                }
                assert(parse_u32(r1) == Some((value, n2))) by {
                    lemma_u32_roundtrip(value, r2);
                }
                assert(input.skip(n0 + n1 + n2) == r2) by {
                    lemma_skip_skip(input, n0 + n1, n2);
                    lemma_skip_concat(a2, r2);
                }
                assert(parse_string(r2) == Some((asset_id, a3.len() as int))) by {
                    lemma_string_roundtrip(asset_id, rest);
                }
            },
            CommandView::TransferFunds { account_from_id, account_to_id, value, asset_id } => {
                let a0 = u32_bytes(2);
                let a1 = u32_bytes(account_from_id);
                let a2 = u32_bytes(account_to_id);
                let a3 = u32_bytes(value);
                let a4 = string_bytes(asset_id);
                let r3 = a4 + rest;
                let r2 = a3 + r3;
                let r1 = a2 + r2;
                let r0 = a1 + r1;
                let n0 = a0.len() as int;
                let n1 = a1.len() as int;
                let n2 = a2.len() as int;
                let n3 = a3.len() as int;
                assert(input == a0 + r0) by {
                    lemma_concat_assoc(a0 + a1 + a2 + a3, a4, rest);
                    lemma_concat_assoc(a0 + a1 + a2, a3, r3);
                    lemma_concat_assoc(a0 + a1, a2, r2);
                    lemma_concat_assoc(a0, a1, r1);
                }
                assert(parse_u32(input) == Some((2u32, n0))) by {
                    lemma_u32_roundtrip(2, r0);
                }
                assert(input.skip(n0) == r0) by {
                    lemma_skip_concat(a0, r0);
                }
                assert(parse_u32(r0) == Some((account_from_id, n1))) by {
                    lemma_u32_roundtrip(account_from_id, r1);
                }
                assert(input.skip(n0 + n1) == r1) by {
                    lemma_skip_skip(input, n0, n1);
                    lemma_skip_concat(a1, r1);
                }
                assert(parse_u32(r1) == Some((account_to_id, n2))) by {
                    lemma_u32_roundtrip(account_to_id, r2);
                }
                assert(input.skip(n0 + n1 + n2) == r2) by {
                    lemma_skip_skip(input, n0 + n1, n2);
                    lemma_skip_concat(a2, r2);
                }
                assert(parse_u32(r2) == Some((value, n3))) by {
                    lemma_u32_roundtrip(value, r3);
                }
                assert(input.skip(n0 + n1 + n2 + n3) == r3) by {
                    lemma_skip_skip(input, n0 + n1 + n2, n3);
                    lemma_skip_concat(a3, r3);
                }
                assert(parse_string(r3) == Some((asset_id, a4.len() as int))) by {
                    lemma_string_roundtrip(asset_id, rest);
                }
            },
        }
    }
}

/// Appends the form of a command to `out`.
pub fn write_command(out: &mut Vec<u8>, command: &Command)
    ensures
        final(out)@ == old(out)@ + command@.form(),
        command@.encodable(),
{
    let ghost before = out@;
    match command {
        Command::CreateAccount { public_key } => {
            write_u32(out, 0);
            write_string(out, public_key);
        },
        Command::AddFunds { account_id, value, asset_id } => {
            write_u32(out, 1);
            write_u32(out, *account_id);
            write_u32(out, *value);
            write_string(out, asset_id);
        },
        Command::TransferFunds { account_from_id, account_to_id, value, asset_id } => {
            write_u32(out, 2);
            write_u32(out, *account_from_id);
            write_u32(out, *account_to_id);
            write_u32(out, *value);
            write_string(out, asset_id);
        },
    }
    assert(out@ =~= before + command@.form());
}

/// Reads the command that starts at `pos`, and says where the next value starts.
pub fn read_command(input: &[u8], pos: usize) -> (result: Option<(Command, usize)>)
    requires
        pos <= input.len(),
    ensures
        match CommandView::parse(input@.skip(pos as int)) {
            Some((command, taken)) => result matches Some((read, next)) && read@ == command
                && next == pos + taken && 1 <= taken && next <= input.len(),
            None => result is None,
        },
{
    let ghost tail = input@.skip(pos as int);
    let (tag, mark0) = match read_u32(input, pos) {
        Some(found) => found,
        None => return None,
    };
    proof {
        lemma_skip_skip(input@, pos as int, mark0 - pos);
    }
    if tag == 0 {
        let (public_key, mark1) = match read_string(input, mark0) {
            Some(found) => found,
            None => return None,
        };
        Some((Command::CreateAccount { public_key }, mark1))
    } else if tag == 1 {
        let (account_id, mark1) = match read_u32(input, mark0) {
            Some(found) => found,
            None => return None,
        };
        proof {
            lemma_skip_skip(input@, pos as int, mark1 - pos);
        }
        let (value, mark2) = match read_u32(input, mark1) {
            Some(found) => found,
            None => return None,
        };
        proof {
            lemma_skip_skip(input@, pos as int, mark2 - pos);
        }
        let (asset_id, mark3) = match read_string(input, mark2) {
            Some(found) => found,
            None => return None,
        };
        Some((Command::AddFunds { account_id, value, asset_id }, mark3))
    } else if tag == 2 {
        let (account_from_id, mark1) = match read_u32(input, mark0) {
            Some(found) => found,
            None => return None,
        };
        proof {
            lemma_skip_skip(input@, pos as int, mark1 - pos);
        }
        let (account_to_id, mark2) = match read_u32(input, mark1) {
            Some(found) => found,
            None => return None,
        };
        proof {
            lemma_skip_skip(input@, pos as int, mark2 - pos);
        }
        let (value, mark3) = match read_u32(input, mark2) {
            Some(found) => found,
            None => return None,
        };
        proof {
            lemma_skip_skip(input@, pos as int, mark3 - pos);
        }
        let (asset_id, mark4) = match read_string(input, mark3) {
            Some(found) => found,
            None => return None,
        };
        Some((Command::TransferFunds { account_from_id, account_to_id, value, asset_id }, mark4))
    } else {
        None
    }
}

/// Appends the form of a list of commands to `out`.
pub fn write_commands(out: &mut Vec<u8>, commands: &Vec<Command>)
    ensures
        final(out)@ == old(out)@ + sequence_bytes(commands_view(commands@)),
        all_encodable(commands_view(commands@)),
{
    let ghost before = out@;
    let ghost view = commands_view(commands@);
    write_varint(out, commands.len() as u64);
    let ghost headed = out@;
    let mut i: usize = 0;
    assert(view.take(0) =~= Seq::empty());
    while i < commands.len()
        invariant
            i <= commands.len(),
            view == commands_view(commands@),
            out@ == headed + items_bytes(view.take(i as int)),
            forall|j: int| 0 <= j < i ==> (#[trigger] view[j]).encodable(),
        decreases commands.len() - i,
    {
        let ghost written = out@;
        write_command(out, &commands[i]);
        proof {
            lemma_items_bytes_push(view.take(i as int), view[i as int]);
            assert(view.take(i + 1) =~= view.take(i as int).push(view[i as int]));
            assert(out@ =~= headed + items_bytes(view.take(i + 1)));
        }
        i += 1;
    }
    assert(view.take(commands.len() as int) =~= view);
    assert(out@ =~= before + sequence_bytes(view));
}

/// Reads the list of commands that starts at `pos`.
pub fn read_commands(input: &[u8], pos: usize) -> (result: Option<(Vec<Command>, usize)>)
    requires
        pos <= input.len(),
    ensures
        match parse_sequence::<CommandView>(input@.skip(pos as int)) {
            Some((commands, taken)) => result matches Some((read, next)) && commands_view(read@)
                == commands && next == pos + taken && 1 <= taken && next <= input.len(),
            None => result is None,
        },
{
    let ghost tail = input@.skip(pos as int);
    let (count, start) = match read_varint(input, pos) {
        Some(found) => found,
        None => return None,
    };
    let ghost base = input@.skip(start as int);
    proof {
        lemma_skip_skip(input@, pos as int, start - pos);
    }
    let mut read: Vec<Command> = Vec::new();
    let mut next: usize = start;
    let mut i: u64 = 0;
    assert(commands_view(read@) =~= Seq::empty());
    while i < count
        invariant
            i <= count,
            pos <= start <= next <= input.len(),
            base == input@.skip(start as int),
            base == input@.skip(pos as int).skip(start - pos),
            parse_varint(input@.skip(pos as int)) == Some((count, start - pos)),
            parse_items::<CommandView>(base, i as nat) == Some(
                (commands_view(read@), next - start),
            ),
        decreases count - i,
    {
        proof {
            lemma_skip_skip(input@, start as int, next - start);
        }
        match read_command(input, next) {
            Some((command, after)) => {
                assert(commands_view(read@.push(command)) =~= commands_view(read@).push(command@));
                read.push(command);
                next = after;
            },
            None => {
                proof {
                    lemma_parse_items_stays_none::<CommandView>(base, (i + 1) as nat, count as nat);
                }
                return None;
            },
        }
        i += 1;
    }
    Some((read, next))
}

impl Wire for TransactionView {
    open spec fn encodable(self) -> bool {
        all_encodable(self.commands)
    }

    open spec fn form(self) -> Seq<u8> {
        u32_bytes(self.fee) + sequence_bytes(self.commands)
    }

    open spec fn parse(input: Seq<u8>) -> Option<(TransactionView, int)> {
        match parse_u32(input) {
            Some((fee, n0)) => match parse_sequence::<CommandView>(input.skip(n0)) {
                Some((commands, n1)) => Some((TransactionView { fee, commands }, n0 + n1)),
                None => None,
            },
            None => None,
        }
    }

    proof fn lemma_parse_bounds(input: Seq<u8>) {
        lemma_parse_u32_bounds(input);
        match parse_u32(input) {
            Some((_, n0)) => {
                lemma_parse_sequence_bounds::<CommandView>(input.skip(n0));
            },
            None => {},
        }
    }

    proof fn lemma_roundtrip(self, rest: Seq<u8>) {
        let input = self.form() + rest;
        let a0 = u32_bytes(self.fee);
        let a1 = sequence_bytes(self.commands);
        let r0 = a1 + rest;
        assert(input == a0 + r0) by {
            lemma_concat_assoc(a0, a1, rest);
        }
        assert(parse_u32(input) == Some((self.fee, a0.len() as int))) by {
            lemma_u32_roundtrip(self.fee, r0);
        }
        assert(input.skip(a0.len() as int) == r0) by {
            lemma_skip_concat(a0, r0);
        }
        assert(parse_sequence::<CommandView>(r0) == Some((self.commands, a1.len() as int))) by {
            lemma_sequence_roundtrip::<CommandView>(self.commands, rest);
        }
    }
}

/// Appends the form of a transaction to `out`.
pub fn write_transaction(out: &mut Vec<u8>, transaction: &Transaction)
    ensures
        final(out)@ == old(out)@ + transaction@.form(),
        transaction@.encodable(),
{
    let ghost before = out@;
    write_u32(out, transaction.fee);
    write_commands(out, &transaction.commands);
    assert(out@ =~= before + transaction@.form());
}

/// Reads the transaction that starts at `pos`.
pub fn read_transaction(input: &[u8], pos: usize) -> (result: Option<(Transaction, usize)>)
    requires
        pos <= input.len(),
    ensures
        match TransactionView::parse(input@.skip(pos as int)) {
            Some((transaction, taken)) => result matches Some((read, next)) && read@
                == transaction && next == pos + taken && 1 <= taken && next <= input.len(),
            None => result is None,
        },
{
    let (fee, mark0) = match read_u32(input, pos) {
        Some(found) => found,
        None => return None,
    };
    proof {
        lemma_skip_skip(input@, pos as int, mark0 - pos);
    }
    let (commands, mark1) = match read_commands(input, mark0) {
        Some(found) => found,
        None => return None,
    };
    Some((Transaction { fee, commands }, mark1))
}

/// Appends the form of a list of transactions to `out`.
pub fn write_transactions(out: &mut Vec<u8>, transactions: &Vec<Transaction>)
    ensures
        final(out)@ == old(out)@ + sequence_bytes(transactions_view(transactions@)),
        all_encodable(transactions_view(transactions@)),
{
    let ghost before = out@;
    let ghost view = transactions_view(transactions@);
    write_varint(out, transactions.len() as u64);
    let ghost headed = out@;
    let mut i: usize = 0;
    assert(view.take(0) =~= Seq::empty());
    while i < transactions.len()
        invariant
            i <= transactions.len(),
            view == transactions_view(transactions@),
            out@ == headed + items_bytes(view.take(i as int)),
            forall|j: int| 0 <= j < i ==> (#[trigger] view[j]).encodable(),
        decreases transactions.len() - i,
    {
        write_transaction(out, &transactions[i]);
        proof {
            lemma_items_bytes_push(view.take(i as int), view[i as int]);
            assert(view.take(i + 1) =~= view.take(i as int).push(view[i as int]));
            assert(out@ =~= headed + items_bytes(view.take(i + 1)));
        }
        i += 1;
    }
    assert(view.take(transactions.len() as int) =~= view);
    assert(out@ =~= before + sequence_bytes(view));
}

/// Reads the list of transactions that starts at `pos`.
pub fn read_transactions(input: &[u8], pos: usize) -> (result: Option<(Vec<Transaction>, usize)>)
    requires
        pos <= input.len(),
    ensures
        match parse_sequence::<TransactionView>(input@.skip(pos as int)) {
            Some((transactions, taken)) => result matches Some((read, next))
                && transactions_view(read@) == transactions && next == pos + taken && 1 <= taken
                && next <= input.len(),
            None => result is None,
        },
{
    let (count, start) = match read_varint(input, pos) {
        Some(found) => found,
        None => return None,
    };
    let ghost base = input@.skip(start as int);
    proof {
        lemma_skip_skip(input@, pos as int, start - pos);
    }
    let mut read: Vec<Transaction> = Vec::new();
    let mut next: usize = start;
    let mut i: u64 = 0;
    assert(transactions_view(read@) =~= Seq::empty());
    while i < count
        invariant
            i <= count,
            pos <= start <= next <= input.len(),
            base == input@.skip(start as int),
            base == input@.skip(pos as int).skip(start - pos),
            parse_varint(input@.skip(pos as int)) == Some((count, start - pos)),
            parse_items::<TransactionView>(base, i as nat) == Some(
                (transactions_view(read@), next - start),
            ),
        decreases count - i,
    {
        proof {
            lemma_skip_skip(input@, start as int, next - start);
        }
        match read_transaction(input, next) {
            Some((transaction, after)) => {
                assert(transactions_view(read@.push(transaction)) =~= transactions_view(
                    read@,
                ).push(transaction@));
                read.push(transaction);
                next = after;
            },
            None => {
                proof {
                    lemma_parse_items_stays_none::<TransactionView>(
                        base,
                        (i + 1) as nat,
                        count as nat,
                    );
                }
                return None;
            },
        }
        i += 1;
    }
    Some((read, next))
}

impl Wire for BlockView {
    open spec fn encodable(self) -> bool {
        &&& self.signature.len() <= u64::MAX
        &&& self.hash.len() <= u64::MAX
        &&& (self.previous_block_hash matches Some(previous) ==> previous.len() <= u64::MAX)
        &&& all_encodable(self.transactions)
    }

    open spec fn form(self) -> Seq<u8> {
        varint_bytes(self.id) + i64_bytes(self.timestamp) + u32_bytes(self.nonce)
            + byte_string_bytes(self.signature) + byte_string_bytes(self.hash) + optional_bytes(
            self.previous_block_hash,
        ) + sequence_bytes(self.transactions)
    }

    open spec fn parse(input: Seq<u8>) -> Option<(BlockView, int)> {
        match parse_varint(input) {
            Some((id, n0)) => match parse_i64(input.skip(n0)) {
                Some((timestamp, n1)) => match parse_u32(input.skip(n0 + n1)) {
                    Some((nonce, n2)) => match parse_byte_string(input.skip(n0 + n1 + n2)) {
                        Some((signature, n3)) => match parse_byte_string(
                            input.skip(n0 + n1 + n2 + n3),
                        ) {
                            Some((hash, n4)) => match parse_optional_bytes(
                                input.skip(n0 + n1 + n2 + n3 + n4),
                            ) {
                                Some((previous_block_hash, n5)) => match parse_sequence::<
                                    TransactionView,
                                >(input.skip(n0 + n1 + n2 + n3 + n4 + n5)) {
                                    Some((transactions, n6)) => Some(
                                        (
                                            BlockView {
                                                id,
                                                timestamp,
                                                nonce,
                                                signature,
                                                hash,
                                                previous_block_hash,
                                                transactions,
                                            },
                                            n0 + n1 + n2 + n3 + n4 + n5 + n6,
                                        ),
                                    ),
                                    None => None,
                                },
                                None => None,
                            },
                            None => None,
                        },
                        None => None,
                    },
                    None => None,
                },
                None => None,
            },
            None => None,
        }
    }

    proof fn lemma_parse_bounds(input: Seq<u8>) {
        lemma_parse_varint_bounds(input);
        if let Some((_, n0)) = parse_varint(input) {
            lemma_parse_i64_bounds(input.skip(n0));
            if let Some((_, n1)) = parse_i64(input.skip(n0)) {
                lemma_parse_u32_bounds(input.skip(n0 + n1));
                if let Some((_, n2)) = parse_u32(input.skip(n0 + n1)) {
                    lemma_parse_byte_string_bounds(input.skip(n0 + n1 + n2));
                    if let Some((_, n3)) = parse_byte_string(input.skip(n0 + n1 + n2)) {
                        lemma_parse_byte_string_bounds(input.skip(n0 + n1 + n2 + n3));
                        if let Some((_, n4)) = parse_byte_string(input.skip(n0 + n1 + n2 + n3)) {
                            lemma_parse_optional_bytes_bounds(input.skip(n0 + n1 + n2 + n3 + n4));
                            if let Some((_, n5)) = parse_optional_bytes(
                                input.skip(n0 + n1 + n2 + n3 + n4),
                            ) {
                                lemma_parse_sequence_bounds::<TransactionView>(
                                    input.skip(n0 + n1 + n2 + n3 + n4 + n5),
                                );
                            }
                        }
                    }
                }
            }
        }
    }

    proof fn lemma_roundtrip(self, rest: Seq<u8>) {
        let input = self.form() + rest;
        let a0 = varint_bytes(self.id);
        let a1 = i64_bytes(self.timestamp);
        let a2 = u32_bytes(self.nonce);
        let a3 = byte_string_bytes(self.signature);
        let a4 = byte_string_bytes(self.hash);
        let a5 = optional_bytes(self.previous_block_hash);
        let a6 = sequence_bytes(self.transactions);
        let r5 = a6 + rest;
        let r4 = a5 + r5;
        let r3 = a4 + r4;
        let r2 = a3 + r3;
        let r1 = a2 + r2;
        let r0 = a1 + r1;
        assert(input == a0 + r0) by {
            lemma_concat_assoc(a0 + a1 + a2 + a3 + a4 + a5, a6, rest);
            lemma_concat_assoc(a0 + a1 + a2 + a3 + a4, a5, r5);
            lemma_concat_assoc(a0 + a1 + a2 + a3, a4, r4);
            lemma_concat_assoc(a0 + a1 + a2, a3, r3);
            lemma_concat_assoc(a0 + a1, a2, r2);
            lemma_concat_assoc(a0, a1, r1);
        }
        let n0 = a0.len() as int;
        let n1 = a1.len() as int;
        let n2 = a2.len() as int;
        let n3 = a3.len() as int;
        let n4 = a4.len() as int;
        let n5 = a5.len() as int;
        assert(parse_varint(input) == Some((self.id, n0))) by {
            lemma_varint_roundtrip(self.id, r0);
        }
        assert(input.skip(n0) == r0) by {
            lemma_skip_concat(a0, r0);
        }
        assert(parse_i64(r0) == Some((self.timestamp, n1))) by {
            lemma_i64_roundtrip(self.timestamp, r1);
        }
        assert(input.skip(n0 + n1) == r1) by {
            lemma_skip_skip(input, n0, n1);
            lemma_skip_concat(a1, r1);
        }
        assert(parse_u32(r1) == Some((self.nonce, n2))) by {
            lemma_u32_roundtrip(self.nonce, r2);
        }
        assert(input.skip(n0 + n1 + n2) == r2) by {
            lemma_skip_skip(input, n0 + n1, n2);
            lemma_skip_concat(a2, r2);
        }
        assert(parse_byte_string(r2) == Some((self.signature, n3))) by {
            lemma_byte_string_roundtrip(self.signature, r3);
        }
        assert(input.skip(n0 + n1 + n2 + n3) == r3) by {
            lemma_skip_skip(input, n0 + n1 + n2, n3);
            lemma_skip_concat(a3, r3);
        }
        assert(parse_byte_string(r3) == Some((self.hash, n4))) by {
            lemma_byte_string_roundtrip(self.hash, r4);
        }
        assert(input.skip(n0 + n1 + n2 + n3 + n4) == r4) by {
            lemma_skip_skip(input, n0 + n1 + n2 + n3, n4);
            lemma_skip_concat(a4, r4);
        }
        assert(parse_optional_bytes(r4) == Some((self.previous_block_hash, n5))) by {
            lemma_optional_bytes_roundtrip(self.previous_block_hash, r5);
        }
        assert(input.skip(n0 + n1 + n2 + n3 + n4 + n5) == r5) by {
            lemma_skip_skip(input, n0 + n1 + n2 + n3 + n4, n5);
            lemma_skip_concat(a5, r5);
        }
        assert(parse_sequence::<TransactionView>(r5) == Some(
            (self.transactions, a6.len() as int),
        )) by {
            lemma_sequence_roundtrip::<TransactionView>(self.transactions, rest);
        }
    }
}

/// Appends the form of a block to `out`.
pub fn write_block(out: &mut Vec<u8>, block: &Block)
    ensures
        final(out)@ == old(out)@ + block@.form(),
        block@.encodable(),
{
    let ghost before = out@;
    write_varint(out, block.id);
    write_i64(out, block.timestamp);
    write_u32(out, block.nonce);
    write_byte_string(out, block.signature.as_slice());
    write_byte_string(out, block.hash.as_slice());
    write_optional_bytes(out, &block.previous_block_hash);
    write_transactions(out, &block.transactions);
    assert(out@ =~= before + block@.form());
}

/// Reads the block that starts at `pos`.
pub fn read_block(input: &[u8], pos: usize) -> (result: Option<(Block, usize)>)
    requires
        pos <= input.len(),
    ensures
        match BlockView::parse(input@.skip(pos as int)) {
            Some((block, taken)) => result matches Some((read, next)) && read@ == block && next
                == pos + taken && 1 <= taken && next <= input.len(),
            None => result is None,
        },
{
    let (id, mark0) = match read_varint(input, pos) {
        Some(found) => found,
        None => return None,
    };
    proof {
        lemma_skip_skip(input@, pos as int, mark0 - pos);
    }
    let (timestamp, mark1) = match read_i64(input, mark0) {
        Some(found) => found,
        None => return None,
    };
    proof {
        lemma_skip_skip(input@, pos as int, mark1 - pos);
    }
    let (nonce, mark2) = match read_u32(input, mark1) {
        Some(found) => found,
        None => return None,
    };
    proof {
        lemma_skip_skip(input@, pos as int, mark2 - pos);
    }
    let (signature, mark3) = match read_byte_string(input, mark2) {
        Some(found) => found,
        None => return None,
    };
    proof {
        lemma_skip_skip(input@, pos as int, mark3 - pos);
    }
    let (hash, mark4) = match read_byte_string(input, mark3) {
        Some(found) => found,
        None => return None,
    };
    proof {
        lemma_skip_skip(input@, pos as int, mark4 - pos);
    }
    let (previous_block_hash, mark5) = match read_optional_bytes(input, mark4) {
        Some(found) => found,
        None => return None,
    };
    proof {
        lemma_skip_skip(input@, pos as int, mark5 - pos);
    }
    let (transactions, mark6) = match read_transactions(input, mark5) {
        Some(found) => found,
        None => return None,
    };
    Some((Block { id, timestamp, nonce, signature, hash, previous_block_hash, transactions }, mark6))
}

/// Appends the form of a list of blocks to `out`.
pub fn write_blocks(out: &mut Vec<u8>, blocks: &Vec<Block>)
    ensures
        final(out)@ == old(out)@ + sequence_bytes(blocks_view(blocks@)),
        all_encodable(blocks_view(blocks@)),
{
    let ghost before = out@;
    let ghost view = blocks_view(blocks@);
    write_varint(out, blocks.len() as u64);
    let ghost headed = out@;
    let mut i: usize = 0;
    assert(view.take(0) =~= Seq::empty());
    while i < blocks.len()
        invariant
            i <= blocks.len(),
            view == blocks_view(blocks@),
            out@ == headed + items_bytes(view.take(i as int)),
            forall|j: int| 0 <= j < i ==> (#[trigger] view[j]).encodable(),
        decreases blocks.len() - i,
    {
        write_block(out, &blocks[i]);
        proof {
            lemma_items_bytes_push(view.take(i as int), view[i as int]);
            assert(view.take(i + 1) =~= view.take(i as int).push(view[i as int]));
            assert(out@ =~= headed + items_bytes(view.take(i + 1)));
        }
        i += 1;
    }
    assert(view.take(blocks.len() as int) =~= view);
    assert(out@ =~= before + sequence_bytes(view));
}

/// Reads the list of blocks that starts at `pos`.
pub fn read_blocks(input: &[u8], pos: usize) -> (result: Option<(Vec<Block>, usize)>)
    requires
        pos <= input.len(),
    ensures
        match parse_sequence::<BlockView>(input@.skip(pos as int)) {
            Some((blocks, taken)) => result matches Some((read, next)) && blocks_view(read@)
                == blocks && next == pos + taken && 1 <= taken && next <= input.len(),
            None => result is None,
        },
{
    let (count, start) = match read_varint(input, pos) {
        Some(found) => found,
        None => return None,
    };
    let ghost base = input@.skip(start as int);
    proof {
        lemma_skip_skip(input@, pos as int, start - pos);
    }
    let mut read: Vec<Block> = Vec::new();
    let mut next: usize = start;
    let mut i: u64 = 0;
    assert(blocks_view(read@) =~= Seq::empty());
    while i < count
        invariant
            i <= count,
            pos <= start <= next <= input.len(),
            base == input@.skip(start as int),
            base == input@.skip(pos as int).skip(start - pos),
            parse_varint(input@.skip(pos as int)) == Some((count, start - pos)),
            parse_items::<BlockView>(base, i as nat) == Some((blocks_view(read@), next - start)),
        decreases count - i,
    {
        proof {
            lemma_skip_skip(input@, start as int, next - start);
        }
        match read_block(input, next) {
            Some((block, after)) => {
                assert(blocks_view(read@.push(block)) =~= blocks_view(read@).push(block@));
                read.push(block);
                next = after;
            },
            None => {
                proof {
                    lemma_parse_items_stays_none::<BlockView>(base, (i + 1) as nat, count as nat);
                }
                return None;
            },
        }
        i += 1;
    }
    Some((read, next))
}

/// The canonical bytes of a command.
pub fn serialize_command(command: &Command) -> (bytes: Vec<u8>)
    ensures
        bytes@ == command@.form(),
        command@.encodable(),
        decoded::<CommandView>(bytes@) == Some(command@),
{
    let mut bytes: Vec<u8> = Vec::new();
    write_command(&mut bytes, command);
    proof {
        assert(bytes@ =~= command@.form());
        lemma_decode_encode(command@);
    }
    bytes
}

/// The command that `bytes` stand for, or `DeserializationError` where they
/// stand for none.
pub fn deserialize_command(bytes: &[u8]) -> (result: Result<Command, LedgerError>)
    ensures
        match decoded::<CommandView>(bytes@) {
            Some(command) => result matches Ok(read) && read@ == command,
            None => result matches Err(error) && error == LedgerError::DeserializationError,
        },
{
    assert(bytes@.skip(0) =~= bytes@);
    match read_command(bytes, 0) {
        Some((command, next)) => {
            if next == bytes.len() {
                Ok(command)
            } else {
                Err(LedgerError::DeserializationError)
            }
        },
        None => Err(LedgerError::DeserializationError),
    }
}

/// The canonical bytes of a transaction.
pub fn serialize_transaction(transaction: &Transaction) -> (bytes: Vec<u8>)
    ensures
        bytes@ == transaction@.form(),
        transaction@.encodable(),
        decoded::<TransactionView>(bytes@) == Some(transaction@),
{
    let mut bytes: Vec<u8> = Vec::new();
    write_transaction(&mut bytes, transaction);
    proof {
        assert(bytes@ =~= transaction@.form());
        lemma_decode_encode(transaction@);
    }
    bytes
}

/// The transaction that `bytes` stand for, or `DeserializationError` where
/// they stand for none.
pub fn deserialize_transaction(bytes: &[u8]) -> (result: Result<Transaction, LedgerError>)
    ensures
        match decoded::<TransactionView>(bytes@) {
            Some(transaction) => result matches Ok(read) && read@ == transaction,
            None => result matches Err(error) && error == LedgerError::DeserializationError,
        },
{
    assert(bytes@.skip(0) =~= bytes@);
    match read_transaction(bytes, 0) {
        Some((transaction, next)) => {
            if next == bytes.len() {
                Ok(transaction)
            } else {
                Err(LedgerError::DeserializationError)
            }
        },
        None => Err(LedgerError::DeserializationError),
    }
}

/// The canonical bytes of a block.
pub fn serialize_block(block: &Block) -> (bytes: Vec<u8>)
    ensures
        bytes@ == block@.form(),
        block@.encodable(),
        decoded::<BlockView>(bytes@) == Some(block@),
{
    let mut bytes: Vec<u8> = Vec::new();
    write_block(&mut bytes, block);
    proof {
        assert(bytes@ =~= block@.form());
        lemma_decode_encode(block@);
    }
    bytes
}

/// The block that `bytes` stand for, or `DeserializationError` where they
/// stand for none.
pub fn deserialize_block(bytes: &[u8]) -> (result: Result<Block, LedgerError>)
    ensures
        match decoded::<BlockView>(bytes@) {
            Some(block) => result matches Ok(read) && read@ == block,
            None => result matches Err(error) && error == LedgerError::DeserializationError,
        },
{
    assert(bytes@.skip(0) =~= bytes@);
    match read_block(bytes, 0) {
        Some((block, next)) => {
            if next == bytes.len() {
                Ok(block)
            } else {
                Err(LedgerError::DeserializationError)
            }
        },
        None => Err(LedgerError::DeserializationError),
    }
}

} // verus!
