//! What the two sides come to together, packet by packet over the wire: a
//! login is taken or refused, a Stream that is inserted arrives whole, and
//! the rows that are answered are the rows that are fetched.

use vstd::prelude::*;
use vstd::utf8::*;

use crate::client;
use crate::client::{ConnectView, ConnectingView, FetchView, LoginView, QueryResultView, Stage};
use crate::error::Fault;
use crate::session;
use crate::session::{
    AcceptView, AcceptingView, AnswerView, EventView, Phase, SessionView, StatementView,
};
use crate::sql;
use crate::sql::ArrivedView;
use crate::text;
use crate::text::Separator;
use crate::tns;
use crate::tns::PacketView;
use crate::ttc;
use crate::ttc::{tag, MessageView};
use crate::wire;

verus! {

/// `packet` as the other side reads it off the wire.
pub open spec fn carried(packet: PacketView) -> Result<Option<PacketView>, Fault> {
    tns::packet_in(packet.bytes()).0
}

/// What connecting and accepting come to.
pub enum Outcome {
    /// The client is connected, told this banner, and the session logged it
    /// in.
    LoggedIn { session: SessionView, banner: Seq<char> },
    /// The session did not let the client in: what it saw, and what the
    /// client was told.
    Refused { seen: Fault, told: Fault },
    /// Anything else.
    Astray,
}

/// What a client that sent `packet` and a session come to, `turns` turns on:
/// each takes what the other sent, as the wire carried it.
pub open spec fn talk(
    client: ConnectingView,
    packet: PacketView,
    session: AcceptingView,
    turns: nat,
) -> Outcome
    decreases turns,
{
    if turns == 0 || carried(packet) is Err {
        Outcome::Astray
    } else {
        match session::accept_step(session, carried(packet)->Ok_0) {
            AcceptView::Sent(session, reply) => if carried(reply) is Err {
                Outcome::Astray
            } else {
                match client::connect_step(client, carried(reply)->Ok_0) {
                    Ok(ConnectView::Sent(client, packet)) => talk(
                        client,
                        packet,
                        session,
                        (turns - 1) as nat,
                    ),
                    _ => Outcome::Astray,
                }
            },
            AcceptView::Accepted(session, reply) => if carried(reply) is Err {
                Outcome::Astray
            } else {
                match client::connect_step(client, carried(reply)->Ok_0) {
                    Ok(ConnectView::Connected(banner)) => Outcome::LoggedIn { session, banner },
                    _ => Outcome::Astray,
                }
            },
            AcceptView::Refused(Some(reply), fault) => if carried(reply) is Err {
                Outcome::Astray
            } else {
                match client::connect_step(client, carried(reply)->Ok_0) {
                    Err(told) => Outcome::Refused { seen: fault, told },
                    _ => Outcome::Astray,
                }
            },
            AcceptView::Refused(None, fault) => Outcome::Astray,
        }
    }
}

/// What fetching comes to where the server sends `packets` and then closes.
pub open spec fn fetched(so_far: QueryResultView, packets: Seq<PacketView>) -> Result<
    QueryResultView,
    Fault,
>
    decreases packets.len(),
{
    let next = if packets.len() == 0 {
        Ok(None)
    } else {
        carried(packets[0])
    };
    match next {
        Err(fault) => Err(fault),
        Ok(packet) => match client::fetch_step(so_far, packet) {
            Err(fault) => Err(fault),
            Ok(FetchView::Done(result)) => Ok(result),
            Ok(FetchView::More(result)) => if packets.len() == 0 {
                Ok(result)
            } else {
                fetched(result, packets.drop_first())
            },
        },
    }
}

/// Whether each of `packets` fits.
pub open spec fn all_fit(packets: Seq<PacketView>) -> bool {
    forall|i: int| 0 <= i < packets.len() ==> (#[trigger] packets[i]).fits()
}

/// Whether what a login sends and is told fits: its answer to a challenge,
/// and the denial that names its user.
pub open spec fn login_fits(login: LoginView, challenge: Seq<u8>) -> bool {
    &&& ttc::message_packet(tag::AUTHENTICATE, client::authentication(login, challenge)).fits()
    &&& session::error_packet(
        session::INVALID_CREDENTIAL as nat,
        session::denial(login.user),
    ).fits()
}

// Packets and messages over the wire.

proof fn lemma_carried(packet: PacketView)
    requires
        packet.fits(),
    ensures
        carried(packet) == Ok::<_, Fault>(Some(packet)),
{
    tns::law_packet_reads_back(packet, Seq::empty());
    assert(packet.bytes() + Seq::<u8>::empty() =~= packet.bytes());
}

proof fn lemma_message_carried(tag: u8, body: Seq<u8>)
    ensures
        ttc::message_packet(tag, body).length() == 11 + body.len(),
        ttc::message_packet(tag, body).fits() ==> {
            &&& body.len() <= 8181
            &&& carried(ttc::message_packet(tag, body)) == Ok::<_, Fault>(
                Some(ttc::message_packet(tag, body)),
            )
        },
        ttc::message_sent(Some(ttc::message_packet(tag, body))) == Ok::<_, Fault>(
            Some(MessageView { tag, body }),
        ),
        ttc::message_due(Some(ttc::message_packet(tag, body))) == Ok::<_, Fault>(
            MessageView { tag, body },
        ),
{
    let message = MessageView { tag, body };
    wire::lemma_be_len(tns::DATA_FLAG as nat, 2);
    ttc::law_message_reads_back(message);
    if message.packet().fits() {
        lemma_carried(message.packet());
    }
}

/// A string at the end of a body reads back.
proof fn lemma_string_alone(text: Seq<char>)
    requires
        encode_utf8(text).len() <= 65535,
    ensures
        ttc::string_in(ttc::string_bytes(text)) == Ok::<_, Fault>((text, Seq::<u8>::empty())),
{
    ttc::law_string_reads_back(text, Seq::empty());
    assert(ttc::string_bytes(text) + Seq::<u8>::empty() =~= ttc::string_bytes(text));
}

proof fn lemma_counted_alone(bytes: Seq<u8>)
    requires
        bytes.len() <= 65535,
    ensures
        ttc::counted_in(ttc::counted_bytes(bytes)) == Ok::<_, Fault>((bytes, Seq::<u8>::empty())),
{
    ttc::law_counted_reads_back(bytes, Seq::empty());
    assert(ttc::counted_bytes(bytes) + Seq::<u8>::empty() =~= ttc::counted_bytes(bytes));
}

proof fn lemma_counted_len(bytes: Seq<u8>)
    ensures
        ttc::counted_bytes(bytes).len() == 2 + bytes.len(),
{
    wire::lemma_be_len(
        if bytes.len() <= 65535 {
            bytes.len()
        } else {
            65535
        },
        2,
    );
}

// Laws of statements.

/// A Stream that is inserted arrives whole, from the table it was inserted
/// into: the session reads the statement and its bind as they were sent,
/// reports the Stream byte for byte, and the client is told of one row.
pub proof fn law_insert_arrives(
    session: SessionView,
    table: Seq<char>,
    column: Seq<char>,
    stream: Seq<u8>,
)
    requires
        ttc::message_packet(
            tag::EXECUTE,
            client::execution(crate::insert_text(table, column), Some(stream)),
        ).fits(),
    ensures
        ({
            let sql = crate::insert_text(table, column);
            let packet = ttc::message_packet(tag::EXECUTE, client::execution(sql, Some(stream)));
            let statement = StatementView { sql, bind: Some(stream) };
            &&& carried(packet) == Ok::<_, Fault>(Some(packet))
            &&& session::statement_in(Some(packet)) == Ok::<_, Fault>(Some(statement))
            &&& session::answer_of(session, statement, None) == (
                AnswerView::Complete(1),
                EventView::Inserted(
                    ArrivedView {
                        origin_uri: session::insert_origin(session, sql),
                        bytes: stream,
                    },
                ),
            )
            &&& fetched(
                QueryResultView::empty(),
                session::answer_packets(AnswerView::Complete(1)),
            ) == Ok::<_, Fault>(QueryResultView { affected_rows: 1, ..QueryResultView::empty() })
        }),
        plain_name(table) ==> session::insert_origin(session, crate::insert_text(table, column))
            == "oracle://"@ + session.peer + "/"@ + table,
{
    let sql = crate::insert_text(table, column);
    law_statement_reads_back(sql, Some(stream));
    lemma_insert_words(table, column);
    law_status_reads_back(1, QueryResultView::empty());
}

/// Whether `table` can be read out of a statement again: it is not empty and
/// holds no white space and no bracket that opens.
pub open spec fn plain_name(table: Seq<char>) -> bool {
    &&& table.len() > 0
    &&& forall|i: int|
        0 <= i < table.len() ==> !text::white_space(#[trigger] table[i]) && table[i] != '('
}

/// A statement and its bind are read as they were sent, and NULL as NULL.
pub proof fn law_statement_reads_back(sql: Seq<char>, bind: Option<Seq<u8>>)
    requires
        ttc::message_packet(tag::EXECUTE, client::execution(sql, bind)).fits(),
    ensures
        carried(ttc::message_packet(tag::EXECUTE, client::execution(sql, bind))) == Ok::<_, Fault>(
            Some(ttc::message_packet(tag::EXECUTE, client::execution(sql, bind))),
        ),
        session::statement_in(
            Some(ttc::message_packet(tag::EXECUTE, client::execution(sql, bind))),
        ) == Ok::<_, Fault>(Some(StatementView { sql, bind })),
{
    let body = client::execution(sql, bind);
    lemma_message_carried(tag::EXECUTE, body);
    lemma_counted_len(encode_utf8(sql));
    if bind is Some {
        lemma_counted_len(bind->0);
    }
    ttc::law_string_reads_back(sql, ttc::value_bytes(bind));
    ttc::law_value_reads_back(bind, Seq::empty());
    assert(ttc::value_bytes(bind) + Seq::<u8>::empty() =~= ttc::value_bytes(bind));
}

/// A statement that is neither a SELECT nor an INSERT, and that nothing else
/// answers, is done with no rows, and the client is told so.
pub proof fn law_other_statement_is_done(session: SessionView, statement: StatementView)
    requires
        !sql::has_verb(statement.sql, "SELECT"@),
        !sql::has_verb(statement.sql, "INSERT"@),
    ensures
        session::answer_of(session, statement, None) == (
            AnswerView::Complete(0),
            EventView::Executed(statement.sql),
        ),
        fetched(
            QueryResultView::empty(),
            session::answer_packets(AnswerView::Complete(0)),
        ) == Ok::<_, Fault>(QueryResultView::empty()),
{
    law_status_reads_back(0, QueryResultView::empty());
}

/// A SELECT is reported as one and nothing else is, whoever answered it.
pub proof fn law_select_is_reported(
    session: SessionView,
    statement: StatementView,
    answered: Option<AnswerView>,
)
    ensures
        sql::has_verb(statement.sql, "SELECT"@) <==> session::answer_of(
            session,
            statement,
            answered,
        ).1 == EventView::Selected(statement.sql),
        session::answer_of(session, statement, answered).1 is Selected ==> sql::has_verb(
            statement.sql,
            "SELECT"@,
        ),
{
}

/// What answers first is what is answered.
pub proof fn law_first_answer_stands(
    session: SessionView,
    statement: StatementView,
    answer: AnswerView,
)
    ensures
        session::answer_of(session, statement, Some(answer)).0 == answer,
{
}

/// A client that logs off, says goodbye or closes runs no further statement.
pub proof fn law_logoff_ends_the_session()
    ensures
        session::statement_in(Some(ttc::message_packet(tag::LOGOFF, Seq::empty()))) == Ok::<
            _,
            Fault,
        >(None::<StatementView>),
        session::statement_in(Some(tns::data_packet(tns::DATA_FLAG_EOF, Seq::empty()))) == Ok::<
            _,
            Fault,
        >(None::<StatementView>),
        session::statement_in(None) == Ok::<_, Fault>(None::<StatementView>),
{
    lemma_message_carried(tag::LOGOFF, Seq::empty());
    ttc::law_goodbye_is_no_message();
}

proof fn lemma_insert_words(table: Seq<char>, column: Seq<char>)
    ensures
        !sql::has_verb(crate::insert_text(table, column), "SELECT"@),
        sql::has_verb(crate::insert_text(table, column), "INSERT"@),
        plain_name(table) ==> session::table_named(crate::insert_text(table, column)) == table,
{
    lemma_statement_words();
    let sql = crate::insert_text(table, column);
    let white = Separator::White;
    let insert = "INSERT"@;
    let behind = " ("@ + column + ") VALUES (:1)"@;
    let rest = " INTO "@ + table + behind;
    assert(sql =~= insert + rest);
    text::lemma_first_field(insert, rest, white);
    let words = text::fields(sql, white);
    assert(words[0] == insert);
    assert(text::same_word(insert, insert));
    assert(text::ascii_lower(insert[0]) == 'i');
    assert(text::ascii_lower("SELECT"@[0]) == 's');
    if plain_name(table) {
        let into = "INTO"@;
        let later = " "@ + table + behind;
        assert(rest.drop_first() =~= into + later);
        text::lemma_first_field(into, later, white);
        assert(later.drop_first() =~= table + behind);
        text::lemma_first_field(table, behind, white);
        let tail = text::fields(behind, white);
        assert(words =~= seq![insert, into, table] + tail);
        assert(!text::same_word(insert, "into"@));
        assert(text::same_word(into, "into"@));
        assert(words.drop_first() =~= seq![into, table] + tail);
        assert(session::word_after(words, "into"@) == Some(table)) by {
            reveal_with_fuel(session::word_after, 3);
        }
        text::lemma_run_is(table, Separator::One('('), table.len());
        assert(table.take(table.len() as int) =~= table);
    }
}

proof fn lemma_statement_words()
    ensures
        "INSERT INTO "@ =~= "INSERT"@ + " INTO "@,
        " INTO "@ =~= seq![' '] + "INTO"@ + " "@,
        "INSERT"@ =~= seq!['I', 'N', 'S', 'E', 'R', 'T'],
        "INTO"@ =~= seq!['I', 'N', 'T', 'O'],
        "into"@ =~= seq!['i', 'n', 't', 'o'],
        "SELECT"@ =~= seq!['S', 'E', 'L', 'E', 'C', 'T'],
        " "@ =~= seq![' '],
        " ("@ =~= seq![' ', '('],
{
    reveal_strlit("INSERT INTO ");
    reveal_strlit("INSERT");
    reveal_strlit(" INTO ");
    reveal_strlit("INTO");
    reveal_strlit("into");
    reveal_strlit("SELECT");
    reveal_strlit(" ");
    reveal_strlit(" (");
}

// Laws of answers.

/// A statement that is done is told as done, with the rows it touched.
pub proof fn law_status_reads_back(rows: nat, so_far: QueryResultView)
    requires
        rows < 0x1_0000_0000_0000_0000,
    ensures
        fetched(so_far, seq![session::status_packet(rows)]) == Ok::<_, Fault>(
            QueryResultView { affected_rows: rows, ..so_far },
        ),
{
    let body = ttc::counted_bytes(wire::be(rows, 8));
    wire::lemma_be_len(rows, 8);
    lemma_counted_len(wire::be(rows, 8));
    lemma_message_carried(tag::STATUS, body);
    ttc::law_numbers_read_back(rows, Seq::empty());
    assert(body + Seq::<u8>::empty() =~= body);
    assert(seq![session::status_packet(rows)][0] == session::status_packet(rows));
}

proof fn lemma_error_carried(code: nat, message: Seq<char>)
    requires
        code < 0x1_0000_0000,
        session::error_packet(code, message).fits(),
    ensures
        carried(session::error_packet(code, message)) == Ok::<_, Fault>(
            Some(session::error_packet(code, message)),
        ),
        ttc::message_due(Some(session::error_packet(code, message))) matches Ok(told)
            && told.tag == tag::ERROR && client::fault_in(told) == client::oracle_fault(
            code,
            message,
        ),
{
    let number = wire::be(code, 4);
    let body = ttc::counted_bytes(number) + ttc::string_bytes(message);
    wire::lemma_be_len(code, 4);
    lemma_counted_len(number);
    lemma_counted_len(encode_utf8(message));
    lemma_message_carried(tag::ERROR, body);
    ttc::law_numbers_read_back(code, ttc::string_bytes(message));
    lemma_string_alone(message);
}

/// An error that is answered is the error the client reports, its code and
/// its message, and whether it is retryable is judged by its code.
pub proof fn law_error_is_told(code: nat, message: Seq<char>, so_far: QueryResultView)
    requires
        code < 0x1_0000_0000,
        session::error_packet(code, message).fits(),
    ensures
        fetched(
            so_far,
            session::answer_packets(AnswerView::Error { code, message }),
        ) == Err::<QueryResultView, _>(client::oracle_fault(code, message)),
{
    lemma_error_carried(code, message);
    let packets = session::answer_packets(AnswerView::Error { code, message });
    assert(packets[0] == session::error_packet(code, message));
}

/// The rows that are answered are the rows that are fetched: every column
/// name, every value byte for byte and NULL as NULL, in order, and how many
/// rows there were.
pub proof fn law_rows_arrive(columns: Seq<Seq<char>>, rows: Seq<Seq<Option<Seq<u8>>>>)
    requires
        rows.len() < 0x1_0000_0000_0000_0000,
        all_fit(session::answer_packets(AnswerView::Rows { columns, rows })),
    ensures
        fetched(
            QueryResultView::empty(),
            session::answer_packets(AnswerView::Rows { columns, rows }),
        ) == Ok::<_, Fault>(QueryResultView { columns, rows, affected_rows: rows.len() }),
{
    let empty = QueryResultView::empty();
    let packets = session::answer_packets(AnswerView::Rows { columns, rows });
    let described = QueryResultView { columns, ..empty };
    assert(packets[0] == session::describe_packet(columns));
    assert(packets[0].fits());
    lemma_columns_arrive(columns, empty);
    let rest = packets.drop_first();
    assert(rest =~= session::row_packets(rows).push(session::status_packet(rows.len())));
    assert forall|i: int| 0 <= i < rows.len() implies session::row_packet(
        #[trigger] rows[i],
    ).fits() by {
        assert(packets[i + 1] == session::row_packet(rows[i]));
    }
    lemma_rows_arrive(described, rows, rows.len());
    assert(described.rows + rows =~= rows);
    assert(fetched(empty, packets) == fetched(described, rest));
}

/// A SELECT that nothing else answers comes back with the session's table,
/// and each of its rows is a Stream.
pub proof fn law_select_arrives(
    config: crate::TransportView,
    session: SessionView,
    sql: Seq<char>,
    bind: Option<Seq<u8>>,
)
    requires
        sql::has_verb(sql, "SELECT"@),
        ttc::message_packet(tag::EXECUTE, client::execution(sql, bind)).fits(),
        session.rows.len() < 0x1_0000_0000_0000_0000,
        all_fit(
            session::answer_packets(
                AnswerView::Rows { columns: session.columns, rows: session.rows },
            ),
        ),
    ensures
        ({
            let packet = ttc::message_packet(tag::EXECUTE, client::execution(sql, bind));
            let statement = StatementView { sql, bind };
            let (answer, event) = session::answer_of(session, statement, None);
            &&& carried(packet) == Ok::<_, Fault>(Some(packet))
            &&& session::statement_in(Some(packet)) == Ok::<_, Fault>(Some(statement))
            &&& event == EventView::Selected(sql)
            &&& fetched(QueryResultView::empty(), session::answer_packets(answer)) matches Ok(
                result,
            ) && {
                &&& result.columns == session.columns
                &&& crate::rows_arrived(config, result.rows) == Seq::new(
                    session.rows.len(),
                    |i: int| crate::row_arrived(config, session.rows[i], i as nat),
                )
            }
        }),
{
    law_statement_reads_back(sql, bind);
    law_rows_arrive(session.columns, session.rows);
}

proof fn lemma_runs_len(runs: Seq<Seq<u8>>)
    ensures
        ttc::counted_runs(runs).len() >= runs.len(),
        forall|i: int|
            0 <= i < runs.len() ==> (#[trigger] runs[i]).len() <= ttc::counted_runs(runs).len(),
    decreases runs.len(),
{
    if runs.len() > 0 {
        lemma_runs_len(runs.drop_first());
        lemma_counted_len(runs[0]);
        assert forall|i: int| 0 <= i < runs.len() implies (#[trigger] runs[i]).len()
            <= ttc::counted_runs(runs).len() by {
            if i > 0 {
                assert(runs.drop_first()[i - 1] == runs[i]);
            }
        }
    }
}

proof fn lemma_columns_arrive(columns: Seq<Seq<char>>, so_far: QueryResultView)
    requires
        session::describe_packet(columns).fits(),
    ensures
        carried(session::describe_packet(columns)) == Ok::<_, Fault>(
            Some(session::describe_packet(columns)),
        ),
        client::fetch_step(so_far, Some(session::describe_packet(columns))) == Ok::<_, Fault>(
            FetchView::More(QueryResultView { columns, ..so_far }),
        ),
{
    let runs = session::encoded(columns);
    let body = wire::count_of(columns.len()) + ttc::counted_runs(runs);
    lemma_message_carried(tag::DESCRIBE, body);
    lemma_runs_len(runs);
    ttc::law_values_read_back(runs, Seq::empty());
    assert(body + Seq::<u8>::empty() =~= body);
    assert forall|i: int| 0 <= i < columns.len() implies client::texts_in(runs)[i]
        == columns[i] by {
        text::law_text_reads_back(columns[i]);
    }
    assert(client::texts_in(runs) =~= columns);
}

proof fn lemma_values_len(row: Seq<Option<Seq<u8>>>)
    ensures
        ttc::value_runs(row).len() >= row.len(),
        forall|i: int|
            0 <= i < row.len() && row[i] is Some ==> (#[trigger] row[i])->0.len()
                <= ttc::value_runs(row).len(),
    decreases row.len(),
{
    if row.len() > 0 {
        lemma_values_len(row.drop_first());
        if row[0] is Some {
            lemma_counted_len(row[0]->0);
        }
        assert forall|i: int| 0 <= i < row.len() && row[i] is Some implies (
        #[trigger] row[i])->0.len() <= ttc::value_runs(row).len() by {
            if i > 0 {
                assert(row.drop_first()[i - 1] == row[i]);
            }
        }
    }
}

proof fn lemma_values_read_back(row: Seq<Option<Seq<u8>>>, rest: Seq<u8>)
    requires
        forall|i: int|
            0 <= i < row.len() && row[i] is Some ==> (#[trigger] row[i])->0.len() <= 65535,
    ensures
        client::value_run_in(ttc::value_runs(row) + rest, row.len()) == Ok::<_, Fault>((row, rest)),
    decreases row.len(),
{
    if row.len() == 0 {
        assert(ttc::value_runs(row) + rest =~= rest);
        assert(row =~= Seq::empty());
    } else {
        let others = row.drop_first();
        assert(ttc::value_runs(row) + rest =~= ttc::value_bytes(row[0]) + (ttc::value_runs(others)
            + rest));
        ttc::law_value_reads_back(row[0], ttc::value_runs(others) + rest);
        assert forall|i: int| 0 <= i < others.len() && others[i] is Some implies (
        #[trigger] others[i])->0.len() <= 65535 by {
            assert(others[i] == row[i + 1]);
        }
        lemma_values_read_back(others, rest);
        assert(seq![row[0]] + others =~= row);
    }
}

proof fn lemma_row_arrives(row: Seq<Option<Seq<u8>>>, so_far: QueryResultView)
    requires
        session::row_packet(row).fits(),
    ensures
        carried(session::row_packet(row)) == Ok::<_, Fault>(Some(session::row_packet(row))),
        client::fetch_step(so_far, Some(session::row_packet(row))) == Ok::<_, Fault>(
            FetchView::More(QueryResultView { rows: so_far.rows.push(row), ..so_far }),
        ),
{
    let body = wire::count_of(row.len()) + ttc::value_runs(row);
    lemma_message_carried(tag::ROW, body);
    lemma_values_len(row);
    ttc::law_count_reads_back(row.len(), ttc::value_runs(row));
    lemma_values_read_back(row, Seq::empty());
    assert(ttc::value_runs(row) + Seq::<u8>::empty() =~= ttc::value_runs(row));
}

proof fn lemma_rows_arrive(
    so_far: QueryResultView,
    rows: Seq<Seq<Option<Seq<u8>>>>,
    affected: nat,
)
    requires
        affected < 0x1_0000_0000_0000_0000,
        forall|i: int| 0 <= i < rows.len() ==> session::row_packet(#[trigger] rows[i]).fits(),
    ensures
        fetched(
            so_far,
            session::row_packets(rows).push(session::status_packet(affected)),
        ) == Ok::<_, Fault>(
            QueryResultView { rows: so_far.rows + rows, affected_rows: affected, ..so_far },
        ),
    decreases rows.len(),
{
    let status = session::status_packet(affected);
    let packets = session::row_packets(rows).push(status);
    if rows.len() == 0 {
        law_status_reads_back(affected, so_far);
        assert(packets =~= seq![status]);
        assert(so_far.rows + rows =~= so_far.rows);
    } else {
        let others = rows.drop_first();
        let next = QueryResultView { rows: so_far.rows.push(rows[0]), ..so_far };
        lemma_row_arrives(rows[0], so_far);
        assert forall|i: int| 0 <= i < others.len() implies session::row_packet(
            #[trigger] others[i],
        ).fits() by {
            assert(others[i] == rows[i + 1]);
        }
        lemma_rows_arrive(next, others, affected);
        assert(packets[0] == session::row_packet(rows[0]));
        assert(packets.drop_first() =~= session::row_packets(others).push(status));
        assert(next.rows + others =~= so_far.rows + rows);
    }
}

// Laws of connecting.

/// Whether a listener reads `service` out of a connect string again: it
/// holds neither what ends the field nor a space.
pub open spec fn plain_service(service: Seq<char>) -> bool {
    forall|i: int| 0 <= i < service.len() ==> #[trigger] service[i] != ')' && service[i] != ' '
}

/// The service that is connected for is the service that is read out of the
/// connect string.
pub proof fn law_service_reads_back(service: Seq<char>)
    requires
        plain_service(service),
    ensures
        session::service_named(crate::connect_text(service)) == service,
{
    reveal_strlit("(DESCRIPTION=(CONNECT_DATA=(SERVICE_NAME=");
    reveal_strlit("SERVICE_NAME=");
    reveal_strlit(")))");
    let string = crate::connect_text(service);
    let field = "SERVICE_NAME="@;
    let separator = Separator::Either(')', ' ');
    assert(field.len() == 13);
    assert(field =~= string.skip(28).subrange(0, 13));
    assert forall|i: int| 0 <= i < 28 implies !field.is_prefix_of(#[trigger] string.skip(i)) by {
        let rest = string.skip(i);
        assert(rest[0] == string[i]);
        assert(rest[1] == string[i + 1]);
        if field.is_prefix_of(rest) {
            assert(field[0] == rest.subrange(0, 13)[0]);
            assert(field[1] == rest.subrange(0, 13)[1]);
            assert(string[i] == 'S' && string[i + 1] == 'E');
        }
    }
    text::lemma_find_is(string, field, 28);
    let rest = string.skip(41);
    assert(rest =~= service + ")))"@);
    assert forall|i: int| 0 <= i < service.len() implies !separator.parts(#[trigger] rest[i]) by {
        assert(rest[i] == service[i]);
    }
    text::lemma_run_is(rest, separator, service.len());
    assert(rest.take(service.len() as int) =~= service);
}

/// A listener's refusal is reported with its reason, and is permanent.
pub proof fn law_refusal_is_told(login: LoginView, reason: Seq<char>)
    requires
        tns::refuse_packet(reason).fits(),
    ensures
        carried(tns::refuse_packet(reason)) == Ok::<_, Fault>(Some(tns::refuse_packet(reason))),
        client::connect_step(client::opening(login), Some(tns::refuse_packet(reason))) == Err::<
            ConnectView,
            _,
        >(Fault::permanent("the listener refused the connection: "@ + reason)),
{
    lemma_carried(tns::refuse_packet(reason));
    text::law_text_reads_back(reason);
}

/// A first packet that is not a connect is refused, and a client that opens
/// so is told why.
pub proof fn law_first_packet_must_connect(
    login: LoginView,
    peer: Seq<char>,
    expected: Option<LoginView>,
    challenge: Seq<u8>,
    packet: PacketView,
)
    requires
        packet.kind != tns::CONNECT,
    ensures
        ({
            let refusal = tns::refuse_packet("ORA-12514: no service"@);
            &&& session::accept_step(session::accepting(peer, expected, challenge), Some(packet))
                == AcceptView::Refused(
                Some(refusal),
                Fault::protocol("a first packet that is not a connect"@),
            )
            &&& carried(refusal) == Ok::<_, Fault>(Some(refusal))
            &&& client::connect_step(client::opening(login), Some(refusal)) == Err::<
                ConnectView,
                _,
            >(
                Fault::permanent(
                    "the listener refused the connection: "@ + "ORA-12514: no service"@,
                ),
            )
        }),
{
    reveal_strlit("ORA-12514: no service");
    is_ascii_chars_encode_utf8("ORA-12514: no service"@);
    law_refusal_is_told(login, "ORA-12514: no service"@);
}

/// A server that answers an error at any stage of the login is reported with
/// it.
pub proof fn law_login_error_is_told(client: ConnectingView, code: nat, message: Seq<char>)
    requires
        client.stage != Stage::Accept,
        code < 0x1_0000_0000,
        session::error_packet(code, message).fits(),
    ensures
        carried(session::error_packet(code, message)) == Ok::<_, Fault>(
            Some(session::error_packet(code, message)),
        ),
        client::connect_step(client, Some(session::error_packet(code, message))) == Err::<
            ConnectView,
            _,
        >(client::oracle_fault(code, message)),
{
    lemma_error_carried(code, message);
}

/// A login is taken exactly where it is the one demanded, or none is; then
/// the session knows the user that the client gave and the service that its
/// connect string names, and the client knows the banner. One that is not
/// taken is refused on both sides with the same denial, which the client is
/// told before the session ends.
pub proof fn law_login_is_judged(
    login: LoginView,
    service: Seq<char>,
    peer: Seq<char>,
    expected: Option<LoginView>,
    challenge: Seq<u8>,
)
    requires
        challenge.len() == 16,
        tns::connect_packet(crate::connect_text(service)).fits(),
        login_fits(login, challenge),
    ensures
        ({
            let taken = match expected {
                Some(demanded) => {
                    &&& login.user == demanded.user
                    &&& ttc::answer_to(challenge, encode_utf8(login.password)) == ttc::answer_to(
                        challenge,
                        encode_utf8(demanded.password),
                    )
                },
                None => true,
            };
            talk(
                client::opening(login),
                tns::connect_packet(crate::connect_text(service)),
                session::accepting(peer, expected, challenge),
                5,
            ) == if taken {
                Outcome::LoggedIn {
                    session: SessionView {
                        peer,
                        user: login.user,
                        service: session::service_named(crate::connect_text(service)),
                        columns: Seq::empty(),
                        rows: Seq::empty(),
                    },
                    banner: session::SERVER_BANNER@,
                }
            } else {
                Outcome::Refused {
                    seen: Fault::permanent("ORA-01017: "@ + session::denial(login.user)),
                    told: client::oracle_fault(1017, session::denial(login.user)),
                }
            }
        }),
{
    let connect = tns::connect_packet(crate::connect_text(service));
    let c1 = client::opening(login);
    let s1 = session::accepting(peer, expected, challenge);
    let c2 = ConnectingView { stage: Stage::Protocol, ..c1 };
    let s2 = AcceptingView {
        phase: Phase::Protocol,
        service: session::service_named(crate::connect_text(service)),
        ..s1
    };
    let c3 = ConnectingView { stage: Stage::DataTypes, banner: session::SERVER_BANNER@, ..c1 };
    let s3 = AcceptingView { phase: Phase::DataTypes, ..s2 };
    let c4 = ConnectingView { stage: Stage::Key, ..c3 };
    let s4 = AcceptingView { phase: Phase::KeyRequest, ..s2 };
    let c5 = ConnectingView { stage: Stage::Verdict, ..c3 };
    let s5 = AcceptingView { phase: Phase::Authenticate, user: login.user, ..s2 };
    let protocol = ttc::message_packet(tag::PROTOCOL, ttc::string_bytes(client::BANNER@));
    let types = ttc::message_packet(tag::DATA_TYPES, Seq::empty());
    let request = ttc::message_packet(
        tag::SESSION_KEY_REQUEST,
        ttc::string_bytes(login.user),
    );
    let auth = ttc::message_packet(tag::AUTHENTICATE, client::authentication(login, challenge));
    lemma_connect_turn(login, service, peer, expected, challenge);
    assert(talk(c1, connect, s1, 5) == talk(c2, protocol, s2, 4));
    lemma_protocol_turn(c2, s2);
    assert(talk(c2, protocol, s2, 4) == talk(c3, types, s3, 3));
    lemma_types_turn(c3, s3);
    lemma_login_lengths(login, challenge);
    assert(talk(c3, types, s3, 3) == talk(c4, request, s4, 2));
    lemma_key_turn(c4, s4);
    assert(talk(c4, request, s4, 2) == talk(c5, auth, s5, 1));
    lemma_verdict_turn(c5, s5);
}

/// What fits of a login, piece by piece.
proof fn lemma_login_lengths(login: LoginView, challenge: Seq<u8>)
    requires
        challenge.len() == 16,
        login_fits(login, challenge),
    ensures
        encode_utf8(login.user).len() <= 65535,
        ttc::message_packet(tag::SESSION_KEY_REQUEST, ttc::string_bytes(login.user)).fits(),
{
    let answer = ttc::answer_to(challenge, encode_utf8(login.password));
    lemma_message_carried(tag::AUTHENTICATE, client::authentication(login, challenge));
    lemma_message_carried(tag::SESSION_KEY_REQUEST, ttc::string_bytes(login.user));
    lemma_counted_len(encode_utf8(login.user));
    lemma_counted_len(answer);
}

proof fn lemma_connect_turn(
    login: LoginView,
    service: Seq<char>,
    peer: Seq<char>,
    expected: Option<LoginView>,
    challenge: Seq<u8>,
)
    requires
        tns::connect_packet(crate::connect_text(service)).fits(),
    ensures
        ({
            let connect = tns::connect_packet(crate::connect_text(service));
            let s1 = session::accepting(peer, expected, challenge);
            let c1 = client::opening(login);
            &&& carried(connect) == Ok::<_, Fault>(Some(connect))
            &&& session::accept_step(s1, Some(connect)) == AcceptView::Sent(
                AcceptingView {
                    phase: Phase::Protocol,
                    service: session::service_named(crate::connect_text(service)),
                    ..s1
                },
                tns::accept_packet(),
            )
            &&& carried(tns::accept_packet()) == Ok::<_, Fault>(Some(tns::accept_packet()))
            &&& client::connect_step(c1, Some(tns::accept_packet())) == Ok::<_, Fault>(
                ConnectView::Sent(
                    ConnectingView { stage: Stage::Protocol, ..c1 },
                    ttc::message_packet(tag::PROTOCOL, ttc::string_bytes(client::BANNER@)),
                ),
            )
        }),
{
    lemma_carried(tns::connect_packet(crate::connect_text(service)));
    wire::lemma_be_len(tns::VERSION as nat, 2);
    lemma_carried(tns::accept_packet());
    tns::law_connect_reads_back(crate::connect_text(service));
}

proof fn lemma_banners()
    ensures
        encode_utf8(client::BANNER@).len() == 9,
        encode_utf8(session::SERVER_BANNER@).len() == 22,
{
    reveal_strlit("xmip-thin");
    reveal_strlit("Oracle Database (xmip)");
    is_ascii_chars_encode_utf8(client::BANNER@);
    is_ascii_chars_encode_utf8(session::SERVER_BANNER@);
}

proof fn lemma_protocol_turn(client: ConnectingView, session: AcceptingView)
    requires
        client.stage == Stage::Protocol,
        session.phase == Phase::Protocol,
    ensures
        ({
            let sent = ttc::message_packet(tag::PROTOCOL, ttc::string_bytes(client::BANNER@));
            let reply = ttc::message_packet(
                tag::PROTOCOL,
                ttc::string_bytes(session::SERVER_BANNER@),
            );
            &&& carried(sent) == Ok::<_, Fault>(Some(sent))
            &&& session::accept_step(session, Some(sent)) == AcceptView::Sent(
                AcceptingView { phase: Phase::DataTypes, ..session },
                reply,
            )
            &&& carried(reply) == Ok::<_, Fault>(Some(reply))
            &&& client::connect_step(client, Some(reply)) == Ok::<_, Fault>(
                ConnectView::Sent(
                    ConnectingView {
                        stage: Stage::DataTypes,
                        banner: session::SERVER_BANNER@,
                        ..client
                    },
                    ttc::message_packet(tag::DATA_TYPES, Seq::empty()),
                ),
            )
        }),
{
    lemma_banners();
    lemma_counted_len(encode_utf8(client::BANNER@));
    lemma_counted_len(encode_utf8(session::SERVER_BANNER@));
    lemma_message_carried(tag::PROTOCOL, ttc::string_bytes(client::BANNER@));
    lemma_message_carried(tag::PROTOCOL, ttc::string_bytes(session::SERVER_BANNER@));
    lemma_string_alone(client::BANNER@);
    lemma_string_alone(session::SERVER_BANNER@);
}

proof fn lemma_types_turn(client: ConnectingView, session: AcceptingView)
    requires
        client.stage == Stage::DataTypes,
        session.phase == Phase::DataTypes,
    ensures
        ({
            let types = ttc::message_packet(tag::DATA_TYPES, Seq::empty());
            &&& carried(types) == Ok::<_, Fault>(Some(types))
            &&& session::accept_step(session, Some(types)) == AcceptView::Sent(
                AcceptingView { phase: Phase::KeyRequest, ..session },
                types,
            )
            &&& client::connect_step(client, Some(types)) == Ok::<_, Fault>(
                ConnectView::Sent(
                    ConnectingView { stage: Stage::Key, ..client },
                    ttc::message_packet(
                        tag::SESSION_KEY_REQUEST,
                        ttc::string_bytes(client.login.user),
                    ),
                ),
            )
        }),
{
    lemma_message_carried(tag::DATA_TYPES, Seq::empty());
}

proof fn lemma_key_turn(client: ConnectingView, session: AcceptingView)
    requires
        client.stage == Stage::Key,
        session.phase == Phase::KeyRequest,
        session.challenge.len() == 16,
        encode_utf8(client.login.user).len() <= 65535,
        ttc::message_packet(
            tag::SESSION_KEY_REQUEST,
            ttc::string_bytes(client.login.user),
        ).fits(),
    ensures
        ({
            let user = client.login.user;
            let request = ttc::message_packet(
                tag::SESSION_KEY_REQUEST,
                ttc::string_bytes(user),
            );
            let key = ttc::message_packet(
                tag::SESSION_KEY,
                ttc::counted_bytes(session.challenge),
            );
            &&& carried(request) == Ok::<_, Fault>(Some(request))
            &&& session::accept_step(session, Some(request)) == AcceptView::Sent(
                AcceptingView { phase: Phase::Authenticate, user, ..session },
                key,
            )
            &&& carried(key) == Ok::<_, Fault>(Some(key))
            &&& client::connect_step(client, Some(key)) == Ok::<_, Fault>(
                ConnectView::Sent(
                    ConnectingView { stage: Stage::Verdict, ..client },
                    ttc::message_packet(
                        tag::AUTHENTICATE,
                        client::authentication(client.login, session.challenge),
                    ),
                ),
            )
        }),
{
    let user = client.login.user;
    lemma_message_carried(tag::SESSION_KEY_REQUEST, ttc::string_bytes(user));
    lemma_string_alone(user);
    lemma_counted_len(session.challenge);
    lemma_message_carried(tag::SESSION_KEY, ttc::counted_bytes(session.challenge));
    lemma_counted_alone(session.challenge);
}

proof fn lemma_verdict_turn(client: ConnectingView, session: AcceptingView)
    requires
        client.stage == Stage::Verdict,
        session.phase == Phase::Authenticate,
        session.challenge.len() == 16,
        session.user == client.login.user,
        encode_utf8(client.login.user).len() <= 65535,
        login_fits(client.login, session.challenge),
    ensures
        ({
            let user = client.login.user;
            let offered = ttc::answer_to(session.challenge, encode_utf8(client.login.password));
            talk(
                client,
                ttc::message_packet(
                    tag::AUTHENTICATE,
                    client::authentication(client.login, session.challenge),
                ),
                session,
                1,
            ) == if session::admits(session, user, offered) {
                Outcome::LoggedIn {
                    session: SessionView {
                        peer: session.peer,
                        user,
                        service: session.service,
                        columns: Seq::empty(),
                        rows: Seq::empty(),
                    },
                    banner: client.banner,
                }
            } else {
                Outcome::Refused {
                    seen: Fault::permanent("ORA-01017: "@ + session::denial(user)),
                    told: client::oracle_fault(1017, session::denial(user)),
                }
            }
        }),
{
    let user = client.login.user;
    let offered = ttc::answer_to(session.challenge, encode_utf8(client.login.password));
    let sent = ttc::message_packet(
        tag::AUTHENTICATE,
        client::authentication(client.login, session.challenge),
    );
    let welcome = ttc::message_packet(tag::AUTH_ACCEPTED, Seq::empty());
    let denied = session::error_packet(session::INVALID_CREDENTIAL as nat, session::denial(user));
    lemma_verdict(client.login, session);
    lemma_message_carried(tag::AUTH_ACCEPTED, Seq::empty());
    lemma_error_carried(session::INVALID_CREDENTIAL as nat, session::denial(user));
    assert(client::connect_step(client, Some(welcome)) == Ok::<_, Fault>(
        ConnectView::Connected(client.banner),
    ));
    assert(client::connect_step(client, Some(denied)) == Err::<ConnectView, _>(
        client::oracle_fault(1017, session::denial(user)),
    ));
    assert(carried(sent) == Ok::<_, Fault>(Some(sent)));
}

/// What the session makes of an authentication.
proof fn lemma_verdict(login: LoginView, session: AcceptingView)
    requires
        session.phase == Phase::Authenticate,
        session.challenge.len() == 16,
        encode_utf8(login.user).len() <= 65535,
        login_fits(login, session.challenge),
    ensures
        ({
            let offered = ttc::answer_to(session.challenge, encode_utf8(login.password));
            let sent = ttc::message_packet(
                tag::AUTHENTICATE,
                client::authentication(login, session.challenge),
            );
            &&& carried(sent) == Ok::<_, Fault>(Some(sent))
            &&& session::accept_step(session, Some(sent)) == if session::admits(
                session,
                login.user,
                offered,
            ) {
                AcceptView::Accepted(
                    SessionView {
                        peer: session.peer,
                        user: login.user,
                        service: session.service,
                        columns: Seq::empty(),
                        rows: Seq::empty(),
                    },
                    ttc::message_packet(tag::AUTH_ACCEPTED, Seq::empty()),
                )
            } else {
                AcceptView::Refused(
                    Some(
                        session::error_packet(
                            session::INVALID_CREDENTIAL as nat,
                            session::denial(login.user),
                        ),
                    ),
                    Fault::permanent("ORA-01017: "@ + session::denial(login.user)),
                )
            }
        }),
{
    let offered = ttc::answer_to(session.challenge, encode_utf8(login.password));
    ttc::law_answer_is_sixteen_bytes(session.challenge, encode_utf8(login.password));
    lemma_message_carried(
        tag::AUTHENTICATE,
        client::authentication(login, session.challenge),
    );
    ttc::law_string_reads_back(login.user, ttc::counted_bytes(offered));
    lemma_counted_alone(offered);
}

// Laws of targets.

/// Whether `segment` is one segment of a path.
pub open spec fn is_segment(segment: Seq<char>) -> bool {
    segment.len() > 0 && !segment.contains('/')
}

proof fn lemma_segment(segment: Seq<char>, rest: Seq<char>)
    requires
        is_segment(segment),
        rest.len() == 0 || rest[0] == '/',
    ensures
        text::fields(segment + rest, Separator::One('/')) == seq![segment]
            + text::fields(rest, Separator::One('/')),
        rest.len() > 0 ==> text::fields(rest, Separator::One('/'))
            == text::fields(rest.drop_first(), Separator::One('/')),
        rest.len() == 0 ==> text::fields(rest, Separator::One('/'))
            == Seq::<Seq<char>>::empty(),
{
    let slash = Separator::One('/');
    assert forall|i: int| 0 <= i < segment.len() implies !slash.parts(#[trigger] segment[i]) by {
        assert(segment.contains(segment[i]));
    }
    text::lemma_first_field(segment, rest, slash);
}

/// Text without a slash, then a slash, is split there.
pub proof fn lemma_split(front: Seq<char>, back: Seq<char>)
    requires
        !front.contains('/'),
    ensures
        text::split_once(front + "/"@ + back, '/') == Some((front, back)),
{
    reveal_strlit("/");
    let text = front + "/"@ + back;
    let slash = Separator::One('/');
    assert forall|i: int| 0 <= i < front.len() implies !slash.parts(#[trigger] text[i]) by {
        assert(text[i] == front[i]);
        assert(front.contains(front[i]));
    }
    assert(text[front.len() as int] == '/');
    text::lemma_run_is(text, slash, front.len());
    assert(text.take(front.len() as int) =~= front);
    assert(text.skip((front.len() + 1) as int) =~= back);
}

proof fn lemma_two_segments(table: Seq<char>, column: Seq<char>)
    requires
        is_segment(table),
        is_segment(column),
    ensures
        text::fields(table + "/"@ + column, Separator::One('/')) == seq![
            table,
            column,
        ],
{
    reveal_strlit("/");
    let rest = "/"@ + column;
    assert(table + "/"@ + column =~= table + rest);
    lemma_segment(table, rest);
    assert(rest.drop_first() =~= column);
    assert(column + Seq::<char>::empty() =~= column);
    lemma_segment(column, Seq::empty());
    assert(seq![table] + (seq![column] + Seq::<Seq<char>>::empty()) =~= seq![table, column]);
}

proof fn lemma_three_segments(service: Seq<char>, table: Seq<char>, column: Seq<char>)
    requires
        is_segment(service),
        is_segment(table),
        is_segment(column),
    ensures
        text::fields(
            service + "/"@ + table + "/"@ + column,
            Separator::One('/'),
        ) == seq![service, table, column],
{
    reveal_strlit("/");
    let rest = "/"@ + table + "/"@ + column;
    assert(service + "/"@ + table + "/"@ + column =~= service + rest);
    lemma_segment(service, rest);
    assert(rest.drop_first() =~= table + "/"@ + column);
    lemma_two_segments(table, column);
    assert(seq![service] + seq![table, column] =~= seq![service, table, column]);
}

/// `oracle://<server>/<service>/<table>/<column>` goes where it says.
pub proof fn law_whole_target(
    config: crate::TransportView,
    server: Seq<char>,
    service: Seq<char>,
    table: Seq<char>,
    column: Seq<char>,
)
    requires
        !server.contains('/'),
        is_segment(service),
        is_segment(table),
        is_segment(column),
    ensures
        crate::resolved(
            config,
            "oracle://"@ + server + "/"@ + service + "/"@ + table + "/"@ + column,
        ) == Ok::<_, Fault>(crate::Place { server, service, table, column }),
{
    let target = "oracle://"@ + server + "/"@ + service + "/"@ + table + "/"@ + column;
    let path = service + "/"@ + table + "/"@ + column;
    let scheme = "oracle://"@;
    assert(scheme =~= target.subrange(0, scheme.len() as int));
    assert(target.skip(scheme.len() as int) =~= server + "/"@ + path);
    lemma_split(server, path);
    lemma_three_segments(service, table, column);
}

/// `<server>/<service>/<table>/<column>` goes where it says, where the
/// server names its port.
pub proof fn law_server_target(
    config: crate::TransportView,
    server: Seq<char>,
    service: Seq<char>,
    table: Seq<char>,
    column: Seq<char>,
)
    requires
        !server.contains('/'),
        server.contains(':'),
        is_segment(service),
        is_segment(table),
        is_segment(column),
    ensures
        crate::resolved(config, server + "/"@ + service + "/"@ + table + "/"@ + column) == Ok::<
            _,
            Fault,
        >(crate::Place { server, service, table, column }),
{
    reveal_strlit("/");
    reveal_strlit("oracle://");
    let path = service + "/"@ + table + "/"@ + column;
    let target = server + "/"@ + path;
    let scheme = "oracle://"@;
    assert(server + "/"@ + service + "/"@ + table + "/"@ + column =~= target);
    lemma_split(server, path);
    lemma_three_segments(service, table, column);
    if scheme.is_prefix_of(target) {
        // The first slash ends the server, and the second would begin the
        // service.
        assert(target[7] == scheme[7] && target[8] == scheme[8]) by {
            assert(target.subrange(0, 9)[7] == scheme[7]);
            assert(target.subrange(0, 9)[8] == scheme[8]);
            assert(target.subrange(0, 9) =~= scheme);
        }
        assert forall|i: int| 0 <= i < 7 implies target[i] != '/' by {
            assert(target.subrange(0, 9)[i] == scheme[i]);
        }
        if server.len() < 7 {
            assert(target[server.len() as int] == '/');
        } else if server.len() > 7 {
            assert(server[7] == target[7]);
            assert(server.contains(server[7]));
        } else {
            assert(target[8] == service[0]);
            assert(service.contains(service[0]));
        }
        assert(false);
    }
}

/// `<service>/<table>/<column>` goes to the configured server.
pub proof fn law_service_target(
    config: crate::TransportView,
    service: Seq<char>,
    table: Seq<char>,
    column: Seq<char>,
)
    requires
        is_segment(service),
        is_segment(table),
        is_segment(column),
        !service.contains(':'),
    ensures
        crate::resolved(config, service + "/"@ + table + "/"@ + column) == Ok::<_, Fault>(
            crate::Place { server: config.server, service, table, column },
        ),
{
    let path = table + "/"@ + column;
    assert(service + "/"@ + table + "/"@ + column =~= service + "/"@ + path);
    lemma_no_server(service, path);
    lemma_three_segments(service, table, column);
}

/// A target whose first segment names no port names no server.
proof fn lemma_no_server(front: Seq<char>, back: Seq<char>)
    requires
        !front.contains('/'),
        !front.contains(':'),
    ensures
        crate::address_in(front + "/"@ + back) is None,
{
    reveal_strlit("/");
    reveal_strlit("oracle://");
    let target = front + "/"@ + back;
    let scheme = "oracle://"@;
    lemma_split(front, back);
    if scheme.is_prefix_of(target) {
        assert(target.subrange(0, 9) =~= scheme);
        assert(target.subrange(0, 9)[6] == ':');
        assert(target[6] == ':');
        assert forall|i: int| 0 <= i < 7 implies target[i] != '/' by {
            assert(target.subrange(0, 9)[i] == scheme[i]);
        }
        if front.len() < 7 {
            assert(target[front.len() as int] == '/');
        } else {
            assert(front[6] == ':');
            assert(front.contains(front[6]));
        }
        assert(false);
    }
}

/// `<table>/<column>` goes to the configured server and service.
pub proof fn law_short_target(config: crate::TransportView, table: Seq<char>, column: Seq<char>)
    requires
        is_segment(table),
        is_segment(column),
        !table.contains(':'),
    ensures
        crate::resolved(config, table + "/"@ + column) == Ok::<_, Fault>(
            crate::Place { server: config.server, service: config.service, table, column },
        ),
{
    lemma_no_server(table, column);
    lemma_two_segments(table, column);
}

// What is sent is what arrives, by its bytes and its characters.

/// Any INSERT arrives, however it is written: a statement that opens with the
/// word, in whatever case and layout, crosses the wire with what it bound,
/// is reported as those bytes, every one, and is answered as one row.
pub proof fn law_any_insert_arrives(
    session: SessionView,
    sql: Seq<char>,
    at: int,
    stream: Seq<u8>,
)
    requires
        sql::opens_with(sql, "INSERT"@, at),
        encode_utf8(sql).len() + stream.len() <= 8176,
    ensures
        ({
            let packet = ttc::message_packet(
                7,
                ttc::string_bytes(sql) + ttc::value_bytes(Some(stream)),
            );
            let statement = StatementView { sql, bind: Some(stream) };
            &&& carried(packet) == Ok::<_, Fault>(Some(packet))
            &&& session::statement_in(Some(packet)) == Ok::<_, Fault>(Some(statement))
            &&& session::answer_of(session, statement, None).0 == AnswerView::Complete(1)
            &&& session::answer_of(session, statement, None).1 matches EventView::Inserted(arrived)
            &&& arrived.bytes == stream
            &&& fetched(
                QueryResultView::empty(),
                session::answer_packets(session::answer_of(session, statement, None).0),
            ) matches Ok(told)
            &&& told.affected_rows == 1
            &&& told.rows.len() == 0
        }),
{
    let statement = StatementView { sql, bind: Some(stream) };
    lemma_counted_len(encode_utf8(sql));
    lemma_counted_len(stream);
    lemma_message_carried(tag::EXECUTE, client::execution(sql, Some(stream)));
    law_statement_reads_back(sql, Some(stream));
    reveal_strlit("INSERT");
    reveal_strlit("SELECT");
    assert forall|other: int| !sql::opens_with(sql, "SELECT"@, other) by {
        session::lemma_one_opening(sql, "INSERT"@, at, "SELECT"@, other);
    }
    session::law_statement_is_told_apart(session, statement, None);
    law_status_reads_back(1, QueryResultView::empty());
}

/// Any SELECT brings the table, however it is written: each row of the
/// session's table, over the wire and back, is handed up as its own last
/// column, every byte, and named by its own first.
pub proof fn law_any_select_brings_the_table(
    config: crate::TransportView,
    session: SessionView,
    sql: Seq<char>,
    at: int,
    bind: Option<Seq<u8>>,
    i: int,
)
    requires
        sql::opens_with(sql, "SELECT"@, at),
        session.rows.len() < 0x1_0000_0000_0000_0000,
        all_fit(
            session::answer_packets(
                AnswerView::Rows { columns: session.columns, rows: session.rows },
            ),
        ),
        0 <= i < session.rows.len(),
    ensures
        ({
            let statement = StatementView { sql, bind };
            let (answer, event) = session::answer_of(session, statement, None);
            let row = session.rows[i];
            &&& event == EventView::Selected(sql)
            &&& fetched(QueryResultView::empty(), session::answer_packets(answer)) matches Ok(told)
            &&& told.columns == session.columns
            &&& told.rows == session.rows
            &&& told.affected_rows == session.rows.len()
            &&& row.len() > 0 && row.last() is Some ==> crate::rows_arrived(
                config,
                told.rows,
            )[i].bytes == row.last()->0
            &&& row.len() > 0 && row[0] is Some ==> crate::rows_arrived(
                config,
                told.rows,
            )[i].origin_uri == "oracle://"@ + config.server + "/"@ + config.service + "?row="@
                + text::lossy_text(row[0]->0)
        }),
{
    let statement = StatementView { sql, bind };
    session::law_statement_is_told_apart(session, statement, None);
    law_rows_arrive(session.columns, session.rows);
    crate::law_row_is_its_last_column(config, session.rows, i);
}

/// A Stream that is sent to a table and a column is bound into that column of
/// that table, and the far end tells that table: what the target names, the
/// statement names, and what the statement names, the origin names.
pub proof fn law_target_is_what_the_statement_names(
    config: crate::TransportView,
    session: SessionView,
    table: Seq<char>,
    column: Seq<char>,
)
    requires
        table.len() > 0,
        forall|i: int|
            0 <= i < table.len() ==> #[trigger] table[i] != '/' && table[i] != ':' && table[i]
                != '(' && !text::blank(table[i]),
        column.len() > 0,
        !column.contains('/'),
    ensures
        crate::resolved(config, table + "/"@ + column) matches Ok(place) && {
            let sql = crate::insert_text(place.table, place.column);
            &&& place.server == config.server
            &&& place.service == config.service
            &&& sql == "INSERT INTO "@ + table + " ("@ + column + ") VALUES (:1)"@
            &&& session::insert_origin(session, sql) == "oracle://"@ + session.peer + "/"@ + table
        },
{
    assert forall|i: int| 0 <= i < table.len() implies !text::white_space(#[trigger] table[i])
        && table[i] != '(' by {
        text::law_separators(' ', ' ', table[i]);
    }
    law_short_target(config, table, column);
    crate::law_insert_names_table_and_column(table, column, column);
    lemma_insert_words(table, column);
}

} // verus!
