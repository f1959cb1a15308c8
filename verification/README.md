# receipt_splitter

Bookkeeping for people who share purchases.  A receipt's QR code is
scanned, the receipt is fetched from the fiscal data operator, every person
ticks the items they shared, and the payer is owed everybody's share.
Direct payments between people are recorded too, and everybody's running
balance is kept.

The library in `src/` is verified with Verus:

- `text`, `numbers`: splitting, trimming and number reading as the standard
  library does them, on character sequences;
- `receipt`: the QR text and the operator's receipt page;
- `lookup`, `fetch`: completing a receipt from the tax service's page, and the
  steps of fetching it from the operator;
- `ledger`, `transaction`: balances, transactions and their laws (payments
  move money and create none, recording order does not matter);
- `payment`, `split`: what a payment form and a receipt split ask for;
- `pages`: what the pages list, and in which order;
- `iso8601`: timestamps in RFC 3339.

`app/` is the web service around it: HTTP, files, the OCR of captchas, JSON
and the rendering of amounts.
