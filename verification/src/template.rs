//! The page of the HTML report.

use vstd::prelude::*;
use vstd::string::StringExecFns;

verus! {

/// Where the table of violations goes.
pub const TABLE_PLACEHOLDER: &'static str = "{{VIOLATIONS_TABLE}}";

/// The page up to the table: a summary, a search box and a severity filter. The names
/// in double braces stand where the values of a report go.
pub const BEFORE_TABLE: &'static str = r#"<!DOCTYPE html>
<html lang="en">
<head>
  <meta charset="UTF-8">
  <meta name="viewport" content="width=device-width, initial-scale=1.0">
  <title>Architectural Drift Report</title>
  <script src="https://cdn.tailwindcss.com"></script>
</head>
<body class="min-h-screen bg-slate-950 text-slate-100">
  <main class="mx-auto max-w-7xl px-4 py-8">
    <header class="mb-8">
      <h1 class="text-3xl font-bold">Architectural Drift Report</h1>
      <p class="mt-1 text-sm text-slate-400">Generated {{GENERATED_AT}}</p>
    </header>

    <section class="mb-8 grid grid-cols-2 gap-4 md:grid-cols-5">
      <div class="rounded-xl border border-slate-800 bg-slate-900 p-4">
        <p class="text-xs uppercase tracking-wider text-slate-400">Files Scanned</p>
        <p class="mt-2 text-2xl font-semibold">{{FILES_SCANNED}}</p>
      </div>
      <div class="rounded-xl border border-slate-800 bg-slate-900 p-4">
        <p class="text-xs uppercase tracking-wider text-slate-400">Total Violations</p>
        <p class="mt-2 text-2xl font-semibold">{{TOTAL_VIOLATIONS}}</p>
      </div>
      <div class="rounded-xl border border-slate-800 bg-slate-900 p-4">
        <p class="text-xs uppercase tracking-wider text-slate-400">High Errors</p>
        <p class="mt-2 text-2xl font-semibold text-red-400">{{HIGH_COUNT}}</p>
      </div>
      <div class="rounded-xl border border-slate-800 bg-slate-900 p-4">
        <p class="text-xs uppercase tracking-wider text-slate-400">Warnings</p>
        <p class="mt-2 text-2xl font-semibold text-amber-400">{{WARNING_COUNT}}</p>
      </div>
      <div class="rounded-xl border border-slate-800 bg-slate-900 p-4">
        <p class="text-xs uppercase tracking-wider text-slate-400">Architecture Health</p>
        <p id="health" class="mt-2 text-2xl font-semibold">{{HEALTH_SCORE}}%</p>
      </div>
    </section>

    <section class="mb-4 flex flex-wrap gap-4">
      <input id="search" type="search" placeholder="Search violations" class="flex-1 rounded-lg border border-slate-700 bg-slate-900 px-4 py-2 text-sm">
      <select id="severity" class="rounded-lg border border-slate-700 bg-slate-900 px-4 py-2 text-sm">
        <option value="all">All severities</option>
        <option value="high">High</option>
        <option value="normal">Warning</option>
      </select>
    </section>

    <section class="overflow-x-auto rounded-xl border border-slate-800 bg-slate-900" style="border-top: 4px solid {{HEALTH_COLOR}}">
      "#;

/// The page after the table.
pub const AFTER_TABLE: &'static str = r#"
    </section>
  </main>

  <script>
    const search = document.getElementById("search");
    const severity = document.getElementById("severity");
    const body = document.getElementById("violations-body");

    function applyFilters() {
      if (!body) {
        return;
      }
      const wanted = search.value.toLowerCase();
      for (const row of body.querySelectorAll("tr")) {
        const found = row.textContent.toLowerCase().indexOf(wanted) !== -1;
        const level = severity.value === "all" || row.dataset.severity === severity.value;
        row.style.display = found && level ? "" : "none";
      }
    }

    search.addEventListener("input", applyFilters);
    severity.addEventListener("change", applyFilters);
  </script>
</body>
</html>
"#;

/// The whole page, with a placeholder for every value.
pub open spec fn template() -> Seq<char> {
    BEFORE_TABLE@ + TABLE_PLACEHOLDER@ + AFTER_TABLE@
}

pub fn html_template() -> (r: String)
    ensures
        r@ == template(),
{
    let mut page = BEFORE_TABLE.to_owned();
    page.append(TABLE_PLACEHOLDER);
    page.append(AFTER_TABLE);
    page
}

}
